use vstd::prelude::*;
use crate::events::UIEvent;
use crate::floating::FloatingPanelState;
use crate::floating::FloatingPanels;
use crate::panel::MockPanel;
use crate::panel::PanelId;
use crate::panel::Pos;
use crate::panel::Rect;
use crate::tiles::seq_index_of;
use crate::tiles::Container;
use crate::tiles::Tile;
use crate::tiles::TileId;
use crate::tiles::Tiles;
use crate::tree::SimplificationOptions;
use crate::tree::Tree;

verus! {

/// How a structural-change request can fail.
#[derive(Debug, Clone, Copy, PartialEq, Eq, Structural)]
pub enum LayoutError {
    /// A referenced tile or parent was not found, or a tile had the wrong
    /// variant for the requested operation.
    StructuralError,
    /// The request tried to close or undock a pinned panel.
    PermissionError,
    /// An in-flight panel could not be restored to either the tree or the
    /// registry.  The handlers below never produce it: every
    /// removal-then-insert sequence carries its paired recovery branch.
    RecoveryError,
}

/// Relies on str's `PartialEq`: two string slices are equal exactly when
/// their character sequences are.
#[verifier::external_body]
fn str_eq(a: &str, b: &str) -> (r: bool)
    ensures
        r == (a@ == b@),
{
    a == b
}

/// The default screen geometry for a floating panel, chosen by title.
pub open spec fn spec_default_rect(title: Seq<char>) -> Rect {
    if title == "Settings"@ {
        Rect { x: 750, y: 50, w: 250, h: 300 }
    } else if title == "Properties"@ {
        Rect { x: 750, y: 400, w: 250, h: 300 }
    } else {
        Rect { x: 100, y: 100, w: 200, h: 200 }
    }
}

/// The first tabs container at or after arena index `i`, in arena order.
pub open spec fn first_tabs_from(t: Tiles, i: int) -> Option<u64>
    decreases t.num() - i,
{
    if i < 0 || i >= t.num() {
        None
    } else if t.tile_at(i).is_tabs() {
        Some(t.id_at(i))
    } else {
        first_tabs_from(t, i + 1)
    }
}

/// The first tabs container in arena order, if any.
pub open spec fn first_tabs(t: Tiles) -> Option<u64> {
    first_tabs_from(t, 0)
}

/// The first tabs container at or after arena index `i` that has at least
/// one child.
pub open spec fn first_occupied_tabs_from(t: Tiles, i: int) -> Option<u64>
    decreases t.num() - i,
{
    if i < 0 || i >= t.num() {
        None
    } else if t.tile_at(i).is_tabs() && t.children_at(i).len() > 0 {
        Some(t.id_at(i))
    } else {
        first_occupied_tabs_from(t, i + 1)
    }
}

/// The first tabs container with a child, in arena order.
pub open spec fn first_occupied_tabs(t: Tiles) -> Option<u64> {
    first_occupied_tabs_from(t, 0)
}

/// What `first_tabs` returns: a tabs container when one exists anywhere,
/// and `None` exactly when none does.
pub proof fn lemma_first_tabs_from(t: Tiles, i: int)
    requires
        t.ids_distinct(),
        0 <= i,
    ensures
        match first_tabs_from(t, i) {
            Some(id) => t.is_tabs(id),
            None => forall|j: int| i <= j < t.num() ==> !(#[trigger] t.tile_at(j)).is_tabs(),
        },
    decreases t.num() - i,
{
    if i < t.num() {
        if t.tile_at(i).is_tabs() {
            t.lemma_idx_of(i);
        } else {
            lemma_first_tabs_from(t, i + 1);
        }
    }
}

/// No tabs container anywhere when `first_tabs` is `None`.
pub proof fn lemma_first_tabs(t: Tiles)
    requires
        t.ids_distinct(),
    ensures
        match first_tabs(t) {
            Some(id) => t.is_tabs(id),
            None => forall|x: u64| !t.is_tabs(x),
        },
{
    lemma_first_tabs_from(t, 0);
    if first_tabs(t) is None {
        assert forall|x: u64| !t.is_tabs(x) by {
            if t.is_tabs(x) {
                let j = t.idx_of(x);
                assert(!t.tile_at(j).is_tabs());
            }
        }
    }
}

/// When every pane of `post` already was a pane of `pre` with the same
/// panel, pane uniqueness carries over.
pub proof fn lemma_panes_unique_preserved(pre: Tiles, post: Tiles)
    requires
        panes_unique(pre),
        forall|x: u64| #![auto] post.is_pane(x)
            ==> pre.is_pane(x) && post.panel_of(x) == pre.panel_of(x),
    ensures
        panes_unique(post),
{
    assert forall|a: u64, b: u64| #![trigger post.panel_of(a), post.panel_of(b)]
        post.is_pane(a) && post.is_pane(b) && a != b
        implies post.panel_of(a).id != post.panel_of(b).id by {
        assert(pre.panel_of(a).id != pre.panel_of(b).id);
    }
}

/// What detaching the pane `t` from its parent does to the tree, before any
/// simplification: the pane's handle is gone from the arena and from its
/// parent's children, the active tab is patched, and nothing else moves.
pub open spec fn detach_post(pre: Tree, mid: Tree, t: TileId) -> bool {
    let p = pre.tiles.parent_of(t.0);
    let oldpc = pre.tiles.children_of(p);
    let k = seq_index_of(oldpc, t);
    &&& mid.root == pre.root
    &&& mid.tiles.next_container_id == pre.tiles.next_container_id
    &&& mid.tiles.next_pane_id == pre.tiles.next_pane_id
    &&& forall|x: u64| mid.tiles.contains(x) <==> (pre.tiles.contains(x) && x != t.0)
    &&& forall|x: u64| pre.tiles.contains(x) && x != t.0 && x != p
        ==> mid.tiles.tile_of(x) == pre.tiles.tile_of(x)
    &&& mid.tiles.is_container(p)
    &&& mid.tiles.is_tabs(p) == pre.tiles.is_tabs(p)
    &&& mid.tiles.children_of(p) == oldpc.remove(k)
    &&& (pre.tiles.is_tabs(p) ==> mid.tiles.active_of(p) == (
        if pre.tiles.active_of(p) == Some(t) {
            if mid.tiles.children_of(p).len() > 0 {
                Some(mid.tiles.children_of(p)[0])
            } else {
                None::<TileId>
            }
        } else {
            pre.tiles.active_of(p)
        }
    ))
}

/// What a successful undock or docked-close does: the pane leaves the tree,
/// its panel gets a fresh floating record (visible for an undock, hidden
/// for a close) remembering the parent it came from, and the parent is
/// simplified.
pub open spec fn detach_ok_post(
    pre: DockState,
    post: DockState,
    tile_id: TileId,
    open: bool,
) -> bool {
    let q = pre.tree.tiles.panel_of(tile_id.0);
    let p = pre.tree.tiles.parent_of(tile_id.0);
    &&& post.options == pre.options
    &&& !post.tree.tiles.contains(tile_id.0)
    &&& !post.is_in_tree(q.id)
    &&& post.floating_panels.contains_key(q.id)
    &&& post.floating_panels.state_of(q.id) == (FloatingPanelState {
        panel: q,
        is_open: open,
        rect: if open {
            Some(spec_default_rect(q.title@))
        } else {
            None::<Rect>
        },
        last_parent_id: Some(TileId(p)),
    })
    &&& forall|x: u32| post.floating_panels.contains_key(x)
        <==> (pre.floating_panels.contains_key(x) || x == q.id)
    &&& forall|x: u32| pre.floating_panels.contains_key(x) && x != q.id
        ==> post.floating_panels.state_of(x) == pre.floating_panels.state_of(x)
    &&& exists|mid: Tree| #![auto] detach_post(pre.tree, mid, tile_id)
        && mid.wf()
        && Tree::simplify_post(mid, post.tree, TileId(p), pre.options)
}

/// Outcome of an undock or a docked-close request, case by case: errors
/// leave the session untouched, and success detaches exactly the named
/// pane.
pub open spec fn detach_cases_post(
    pre: DockState,
    post: DockState,
    tile_id: TileId,
    open: bool,
    r: Result<(), LayoutError>,
) -> bool {
    if !pre.tree.tiles.is_pane(tile_id.0) {
        r == Err::<(), LayoutError>(LayoutError::StructuralError) && post == pre
    } else if pre.tree.tiles.panel_of(tile_id.0).is_permanent {
        r == Err::<(), LayoutError>(LayoutError::PermissionError) && post == pre
    } else if !pre.tree.tiles.is_child(tile_id.0) {
        r == Err::<(), LayoutError>(LayoutError::StructuralError) && post == pre
    } else {
        r == Ok::<(), LayoutError>(()) && detach_ok_post(pre, post, tile_id, open)
    }
}

/// Outcome of `handle_undock_panel`.
pub open spec fn undock_post(
    pre: DockState,
    post: DockState,
    tile_id: TileId,
    r: Result<(), LayoutError>,
) -> bool {
    detach_cases_post(pre, post, tile_id, true, r)
}

/// Outcome of `handle_close_from_tree`.
pub open spec fn close_from_tree_post(
    pre: DockState,
    post: DockState,
    tile_id: TileId,
    r: Result<(), LayoutError>,
) -> bool {
    detach_cases_post(pre, post, tile_id, false, r)
}

/// The dock target that plain docking resolves, in tie-break order: the
/// panel's last parent when it is still a valid tabs container, else the
/// first tabs container in arena order, else none (a fresh root must be
/// synthesized).
pub open spec fn dock_target_of(pre: DockState, pid: u32) -> Option<u64> {
    let fs = pre.floating_panels.state_of(pid);
    match fs.last_parent_id {
        Some(lp) => if pre.tree.tiles.is_tabs(lp.0) {
            Some(lp.0)
        } else {
            first_tabs(pre.tree.tiles)
        },
        None => first_tabs(pre.tree.tiles),
    }
}

/// What successfully appending a floating panel to the tabs container
/// `target` does: its record leaves the registry, a fresh pane holding its
/// panel is appended to the target's children and becomes the active tab,
/// and nothing else moves.
pub open spec fn append_pane_post(
    pre: DockState,
    post: DockState,
    pid: u32,
    target: u64,
) -> bool {
    let fs = pre.floating_panels.state_of(pid);
    let h = pre.tree.tiles.next_pane_id;
    &&& post.options == pre.options
    &&& post.tree.root == pre.tree.root
    &&& post.tree.tiles.next_pane_id == h + 1
    &&& post.tree.tiles.next_container_id == pre.tree.tiles.next_container_id
    &&& forall|x: u64| post.tree.tiles.contains(x)
        <==> (pre.tree.tiles.contains(x) || x == h)
    &&& post.tree.tiles.is_pane(h)
    &&& post.tree.tiles.panel_of(h) == fs.panel
    &&& forall|x: u64| pre.tree.tiles.contains(x) && x != target
        ==> post.tree.tiles.tile_of(x) == pre.tree.tiles.tile_of(x)
    &&& post.tree.tiles.is_tabs(target)
    &&& post.tree.tiles.children_of(target)
        == pre.tree.tiles.children_of(target).push(TileId(h))
    &&& post.tree.tiles.active_of(target) == Some(TileId(h))
    &&& forall|x: u32| post.floating_panels.contains_key(x)
        <==> (pre.floating_panels.contains_key(x) && x != pid)
    &&& forall|x: u32| pre.floating_panels.contains_key(x) && x != pid
        ==> post.floating_panels.state_of(x) == pre.floating_panels.state_of(x)
}

/// What docking into an empty or tabs-less tree does: a brand-new tabs
/// container holding only the fresh pane becomes the root; any earlier
/// structure stays in the arena but is no longer the root.
pub open spec fn dock_new_root_post(pre: DockState, post: DockState, pid: u32) -> bool {
    let fs = pre.floating_panels.state_of(pid);
    let rt = (pre.tree.tiles.next_container_id - 1) as u64;
    let h = pre.tree.tiles.next_pane_id;
    &&& post.options == pre.options
    &&& post.tree.root == Some(TileId(rt))
    &&& post.tree.tiles.next_container_id == rt
    &&& post.tree.tiles.next_pane_id == h + 1
    &&& forall|x: u64| post.tree.tiles.contains(x)
        <==> (pre.tree.tiles.contains(x) || x == rt || x == h)
    &&& forall|x: u64| pre.tree.tiles.contains(x)
        ==> post.tree.tiles.tile_of(x) == pre.tree.tiles.tile_of(x)
    &&& post.tree.tiles.is_tabs(rt)
    &&& post.tree.tiles.children_of(rt) == seq![TileId(h)]
    &&& post.tree.tiles.active_of(rt) == Some(TileId(h))
    &&& post.tree.tiles.is_pane(h)
    &&& post.tree.tiles.panel_of(h) == fs.panel
    &&& forall|x: u32| post.floating_panels.contains_key(x)
        <==> (pre.floating_panels.contains_key(x) && x != pid)
    &&& forall|x: u32| pre.floating_panels.contains_key(x) && x != pid
        ==> post.floating_panels.state_of(x) == pre.floating_panels.state_of(x)
}

/// What the paired recovery branch of a failed targeted dock does: the
/// arena holds exactly the tiles it held before (one pane handle was used
/// up), and the panel is back in the registry, visible, with its prior
/// geometry (or a default one if it had none).  The panel is never lost.
pub open spec fn dock_recover_post(pre: DockState, post: DockState, pid: u32) -> bool {
    let fs = pre.floating_panels.state_of(pid);
    &&& post.options == pre.options
    &&& post.tree.root == pre.tree.root
    &&& post.tree.tiles.entries@ == pre.tree.tiles.entries@
    &&& post.tree.tiles.next_container_id == pre.tree.tiles.next_container_id
    &&& post.tree.tiles.next_pane_id == pre.tree.tiles.next_pane_id + 1
    &&& post.floating_panels.contains_key(pid)
    &&& post.floating_panels.state_of(pid) == (FloatingPanelState {
        panel: fs.panel,
        is_open: true,
        rect: if fs.rect is Some {
            fs.rect
        } else {
            Some(spec_default_rect(fs.panel.title@))
        },
        last_parent_id: fs.last_parent_id,
    })
    &&& forall|x: u32| post.floating_panels.contains_key(x)
        <==> (pre.floating_panels.contains_key(x) || x == pid)
    &&& forall|x: u32| pre.floating_panels.contains_key(x) && x != pid
        ==> post.floating_panels.state_of(x) == pre.floating_panels.state_of(x)
}

/// Outcome of docking a floating panel at an explicitly resolved target,
/// case by case.  The target is re-validated at mutation time; if it has
/// vanished or is not a tabs container, the recovery branch restores the
/// panel as a visible floating window.
pub open spec fn dock_at_post(
    pre: DockState,
    post: DockState,
    pid: u32,
    target: TileId,
    r: Result<(), LayoutError>,
) -> bool {
    if !pre.floating_panels.contains_key(pid) {
        r == Err::<(), LayoutError>(LayoutError::StructuralError) && post == pre
    } else if pre.tree.tiles.is_tabs(target.0) {
        r == Ok::<(), LayoutError>(()) && append_pane_post(pre, post, pid, target.0)
    } else {
        r == Err::<(), LayoutError>(LayoutError::StructuralError)
            && dock_recover_post(pre, post, pid)
    }
}

/// Outcome of `handle_dock_panel`: with the panel in the registry it always
/// succeeds, docking into the resolved target or synthesizing a new root.
pub open spec fn dock_post(
    pre: DockState,
    post: DockState,
    pid: u32,
    r: Result<(), LayoutError>,
) -> bool {
    if !pre.floating_panels.contains_key(pid) {
        r == Err::<(), LayoutError>(LayoutError::StructuralError) && post == pre
    } else {
        r == Ok::<(), LayoutError>(()) && match dock_target_of(pre, pid) {
            Some(t) => append_pane_post(pre, post, pid, t),
            None => dock_new_root_post(pre, post, pid),
        }
    }
}

/// Outcome of `handle_dock_panel_to_target`: a valid tabs hint is used;
/// otherwise the default target resolution applies, and with no tabs
/// container anywhere the request fails without mutating anything.
pub open spec fn dock_to_target_post(
    pre: DockState,
    post: DockState,
    pid: u32,
    target_id: Option<TileId>,
    r: Result<(), LayoutError>,
) -> bool {
    if !pre.floating_panels.contains_key(pid) {
        r == Err::<(), LayoutError>(LayoutError::StructuralError) && post == pre
    } else {
        let hint_valid = match target_id {
            Some(t) => pre.tree.tiles.is_tabs(t.0),
            None => false,
        };
        let hint = match target_id {
            Some(t) => t.0,
            None => 0,
        };
        if hint_valid {
            r == Ok::<(), LayoutError>(()) && append_pane_post(pre, post, pid, hint)
        } else {
            match first_tabs(pre.tree.tiles) {
                Some(t) => r == Ok::<(), LayoutError>(()) && append_pane_post(pre, post, pid, t),
                None => r == Err::<(), LayoutError>(LayoutError::StructuralError)
                    && post == pre,
            }
        }
    }
}

/// Outcome of `handle_reopen_panel`: a no-op on an already-open panel;
/// otherwise the panel redocks into its remembered parent when that is
/// still a valid tabs container, and reopens as a visible floating window
/// (with a default geometry if none was stored) when it is not.
pub open spec fn reopen_post(
    pre: DockState,
    post: DockState,
    pid: u32,
    r: Result<(), LayoutError>,
) -> bool {
    if !pre.floating_panels.contains_key(pid) {
        r == Err::<(), LayoutError>(LayoutError::StructuralError) && post == pre
    } else {
        let fs = pre.floating_panels.state_of(pid);
        if fs.is_open {
            r == Ok::<(), LayoutError>(()) && post == pre
        } else {
            let lp_valid = match fs.last_parent_id {
                Some(lp) => pre.tree.tiles.is_tabs(lp.0),
                None => false,
            };
            let lp0 = match fs.last_parent_id {
                Some(lp) => lp.0,
                None => 0,
            };
            if lp_valid {
                r == Ok::<(), LayoutError>(()) && append_pane_post(pre, post, pid, lp0)
            } else {
                &&& r == Ok::<(), LayoutError>(())
                &&& post.options == pre.options
                &&& post.tree == pre.tree
                &&& post.floating_panels.contains_key(pid)
                &&& post.floating_panels.state_of(pid) == (FloatingPanelState {
                    panel: fs.panel,
                    is_open: true,
                    rect: if fs.rect is Some {
                        fs.rect
                    } else {
                        Some(spec_default_rect(fs.panel.title@))
                    },
                    last_parent_id: None::<TileId>,
                })
                &&& forall|x: u32| post.floating_panels.contains_key(x)
                    <==> (pre.floating_panels.contains_key(x) || x == pid)
                &&& forall|x: u32| pre.floating_panels.contains_key(x) && x != pid
                    ==> post.floating_panels.state_of(x) == pre.floating_panels.state_of(x)
            }
        }
    }
}

/// Outcome of `handle_close_floating`: closing a pinned panel fails, and
/// closing an already-hidden panel succeeds without changing anything.
pub open spec fn close_floating_post(
    pre: DockState,
    post: DockState,
    pid: u32,
    r: Result<(), LayoutError>,
) -> bool {
    if !pre.floating_panels.contains_key(pid) {
        r == Err::<(), LayoutError>(LayoutError::StructuralError) && post == pre
    } else if pre.floating_panels.state_of(pid).panel.is_permanent {
        r == Err::<(), LayoutError>(LayoutError::PermissionError) && post == pre
    } else if !pre.floating_panels.state_of(pid).is_open {
        r == Ok::<(), LayoutError>(()) && post == pre
    } else {
        let fs = pre.floating_panels.state_of(pid);
        &&& r == Ok::<(), LayoutError>(())
        &&& post.tree == pre.tree
        &&& post.options == pre.options
        &&& post.floating_panels.contains_key(pid)
        &&& post.floating_panels.state_of(pid) == (FloatingPanelState {
            panel: fs.panel,
            is_open: false,
            rect: fs.rect,
            last_parent_id: fs.last_parent_id,
        })
        &&& forall|x: u32| post.floating_panels.contains_key(x)
            <==> pre.floating_panels.contains_key(x)
        &&& forall|x: u32| pre.floating_panels.contains_key(x) && x != pid
            ==> post.floating_panels.state_of(x) == pre.floating_panels.state_of(x)
    }
}

/// Outcome of `handle_request_activate_tab`: the pane's parent must be a
/// tabs container; the pane becomes its active selection and nothing else
/// changes.
pub open spec fn activate_tab_post(
    pre: DockState,
    post: DockState,
    tile_id: TileId,
    r: Result<(), LayoutError>,
) -> bool {
    if !pre.tree.tiles.is_child(tile_id.0) {
        r == Err::<(), LayoutError>(LayoutError::StructuralError) && post == pre
    } else if !pre.tree.tiles.is_tabs(pre.tree.tiles.parent_of(tile_id.0)) {
        r == Err::<(), LayoutError>(LayoutError::StructuralError) && post == pre
    } else {
        let p = pre.tree.tiles.parent_of(tile_id.0);
        &&& r == Ok::<(), LayoutError>(())
        &&& post.floating_panels == pre.floating_panels
        &&& post.options == pre.options
        &&& post.tree.root == pre.tree.root
        &&& post.tree.tiles.next_container_id == pre.tree.tiles.next_container_id
        &&& post.tree.tiles.next_pane_id == pre.tree.tiles.next_pane_id
        &&& forall|x: u64| post.tree.tiles.contains(x) <==> pre.tree.tiles.contains(x)
        &&& forall|x: u64| pre.tree.tiles.contains(x) && x != p
            ==> post.tree.tiles.tile_of(x) == pre.tree.tiles.tile_of(x)
        &&& post.tree.tiles.is_tabs(p)
        &&& post.tree.tiles.children_of(p) == pre.tree.tiles.children_of(p)
        &&& post.tree.tiles.active_of(p) == Some(tile_id)
    }
}

/// Outcome of one dispatched event, by its kind.
pub open spec fn step_post(
    pre: DockState,
    post: DockState,
    event: UIEvent,
    r: Result<(), LayoutError>,
) -> bool {
    match event {
        UIEvent::ClosePanelFromTree { tile_id } => close_from_tree_post(pre, post, tile_id, r),
        UIEvent::ClosePanelFloating { panel_id } => close_floating_post(pre, post, panel_id, r),
        UIEvent::ReopenPanel { panel_id } => reopen_post(pre, post, panel_id, r),
        UIEvent::DockPanel { panel_id } => dock_post(pre, post, panel_id, r),
        UIEvent::DockPanelToTarget { panel_id, target_id, position: _ } =>
            dock_to_target_post(pre, post, panel_id, target_id, r),
        UIEvent::UndockPanel { tile_id } => undock_post(pre, post, tile_id, r),
        UIEvent::RequestActivateTab { tile_id } => activate_tab_post(pre, post, tile_id, r),
    }
}

/// The processor turned `pre` into `post` by running the given events in
/// order, each to completion (success or recovered failure) before the
/// next.
pub open spec fn processed(pre: DockState, events: Seq<UIEvent>, post: DockState) -> bool
    decreases events.len(),
{
    if events.len() == 0 {
        post == pre
    } else {
        exists|mid: DockState, r: Result<(), LayoutError>| #![auto]
            step_post(pre, mid, events[0], r) && processed(mid, events.skip(1), post)
    }
}

/// Extending a processing chain by one more executed event.
pub proof fn lemma_processed_snoc(
    pre: DockState,
    events: Seq<UIEvent>,
    mid: DockState,
    event: UIEvent,
    r: Result<(), LayoutError>,
    post: DockState,
)
    requires
        processed(pre, events, mid),
        step_post(mid, post, event, r),
    ensures
        processed(pre, events.push(event), post),
    decreases events.len(),
{
    let whole = events.push(event);
    if events.len() == 0 {
        assert(whole[0] == event);
        assert(whole.skip(1) =~= Seq::<UIEvent>::empty());
        assert(mid == pre);
        assert(processed(post, whole.skip(1), post));
        assert(step_post(pre, post, whole[0], r) && processed(post, whole.skip(1), post));
    } else {
        let (m1, r1): (DockState, Result<(), LayoutError>) = choose|m1: DockState, r1: Result<
            (),
            LayoutError,
        >| #![auto] step_post(pre, m1, events[0], r1) && processed(m1, events.skip(1), mid);
        lemma_processed_snoc(m1, events.skip(1), mid, event, r, post);
        assert(whole[0] == events[0]);
        assert(whole.skip(1) =~= events.skip(1).push(event));
        assert(step_post(pre, m1, whole[0], r1) && processed(m1, whole.skip(1), post));
    }
}

/// One dispatched event uses up at most one container handle and one pane
/// handle.
pub proof fn lemma_step_bounds(
    pre: DockState,
    post: DockState,
    event: UIEvent,
    r: Result<(), LayoutError>,
)
    requires
        step_post(pre, post, event, r),
    ensures
        post.tree.tiles.next_container_id + 1 >= pre.tree.tiles.next_container_id,
        post.tree.tiles.next_pane_id <= pre.tree.tiles.next_pane_id + 1,
{
    match event {
        UIEvent::ClosePanelFromTree { tile_id } => {
            lemma_detach_bounds(pre, post, tile_id, false, r);
        },
        UIEvent::UndockPanel { tile_id } => {
            lemma_detach_bounds(pre, post, tile_id, true, r);
        },
        _ => {},
    }
}

/// A detach (undock or docked close) never allocates handles.
pub proof fn lemma_detach_bounds(
    pre: DockState,
    post: DockState,
    tile_id: TileId,
    open: bool,
    r: Result<(), LayoutError>,
)
    requires
        detach_cases_post(pre, post, tile_id, open, r),
    ensures
        post.tree.tiles.next_container_id == pre.tree.tiles.next_container_id,
        post.tree.tiles.next_pane_id == pre.tree.tiles.next_pane_id,
{
    if pre.tree.tiles.is_pane(tile_id.0)
        && !pre.tree.tiles.panel_of(tile_id.0).is_permanent
        && pre.tree.tiles.is_child(tile_id.0) {
        let p = pre.tree.tiles.parent_of(tile_id.0);
        let mid = choose|mid: Tree| #![auto] detach_post(pre.tree, mid, tile_id)
            && mid.wf()
            && Tree::simplify_post(mid, post.tree, TileId(p), pre.options);
        assert(mid.tiles.next_container_id == pre.tree.tiles.next_container_id);
        assert(crate::tree::simplify_frame(mid.tiles, post.tree.tiles));
    }
}

/// Every child handle named by some container resolves to an arena entry.
pub open spec fn refs_resolve(t: Tiles) -> bool {
    forall|i: int, k: int| t.child_slot(i, k)
        ==> t.contains(#[trigger] t.child_at(i, k))
}

/// Every edge leads from a smaller handle to a strictly larger one, which
/// rules out cycles among the parent/child edges.
pub open spec fn edges_ordered(t: Tiles) -> bool {
    forall|i: int, k: int| t.child_slot(i, k)
        ==> t.id_at(i) < #[trigger] t.child_at(i, k)
}

/// No two panes of the arena hold the same panel identity.
pub open spec fn panes_unique(t: Tiles) -> bool {
    forall|a: u64, b: u64| #![trigger t.panel_of(a), t.panel_of(b)]
        t.is_pane(a) && t.is_pane(b) && a != b ==> t.panel_of(a).id != t.panel_of(b).id
}

/// The top-level session object: the docking tree, the floating registry,
/// and the simplification policy its event handlers apply after structural
/// removals.  It exclusively owns both structures; render callbacks never
/// mutate them directly.
#[derive(Debug, Clone)]
pub struct DockState {
    pub tree: Tree,
    pub floating_panels: FloatingPanels,
    pub options: SimplificationOptions,
}

impl DockState {
    /// The panel identity `pid` is embedded as a pane in the tree.
    pub open spec fn is_in_tree(self, pid: u32) -> bool {
        self.tree.tiles.has_panel(pid)
    }

    /// The panel identity `pid` has a floating record.
    pub open spec fn is_in_registry(self, pid: u32) -> bool {
        self.floating_panels.contains_key(pid)
    }

    /// The panel identity `pid` is known to the session at all.
    pub open spec fn managed(self, pid: u32) -> bool {
        self.is_in_tree(pid) || self.is_in_registry(pid)
    }

    /// Exactly-one-location: no panel identity is both embedded in the tree
    /// and present in the registry.
    pub open spec fn exclusive(self) -> bool {
        forall|x: u32| !(self.tree.tiles.has_panel(x)
            && #[trigger] self.floating_panels.contains_key(x))
    }

    /// Registry keys match the identity of the panel they hold.
    pub open spec fn registry_keys_ok(self) -> bool {
        forall|k: u32| #[trigger] self.floating_panels.contains_key(k)
            ==> self.floating_panels.state_of(k).panel.id == k
    }

    /// Well-formedness of the whole session: tree shape, registry keys,
    /// pane uniqueness, and exclusivity.
    pub open spec fn wf(self) -> bool {
        &&& self.tree.wf()
        &&& self.floating_panels.wf()
        &&& panes_unique(self.tree.tiles)
        &&& self.registry_keys_ok()
        &&& self.exclusive()
    }

    /// The simplification policy the event handlers apply.
    pub fn simplification_options(&self) -> (r: SimplificationOptions)
        ensures
            r == self.options,
    {
        self.options
    }

    /// The default screen geometry for a floating panel, chosen by title.
    pub fn get_default_rect(&self, panel_title: &str) -> (r: Rect)
        ensures
            r == spec_default_rect(panel_title@),
    {
        if str_eq(panel_title, "Settings") {
            Rect { x: 750, y: 50, w: 250, h: 300 }
        } else if str_eq(panel_title, "Properties") {
            Rect { x: 750, y: 400, w: 250, h: 300 }
        } else {
            Rect { x: 100, y: 100, w: 200, h: 200 }
        }
    }

    /// The default dock target: the first tabs container in arena order, or
    /// a structural error when the tree holds no tabs container at all.
    pub fn find_dock_target(&self) -> (r: Result<TileId, LayoutError>)
        requires
            self.tree.tiles.wf(),
        ensures
            match r {
                Ok(t) => first_tabs(self.tree.tiles) == Some(t.0)
                    && self.tree.tiles.is_tabs(t.0),
                Err(e) => e == LayoutError::StructuralError
                    && first_tabs(self.tree.tiles) is None
                    && forall|x: u64| !self.tree.tiles.is_tabs(x),
            },
    {
        let n = self.tree.tiles.entries.len();
        let mut i: usize = 0;
        while i < n
            invariant
                self.tree.tiles.wf(),
                n == self.tree.tiles.num(),
                0 <= i <= n,
                first_tabs(self.tree.tiles) == first_tabs_from(self.tree.tiles, i as int),
            decreases n - i,
        {
            let is_tabs = match &self.tree.tiles.entries[i].tile {
                Tile::Container(Container::Tabs(_)) => true,
                _ => false,
            };
            if is_tabs {
                proof {
                    self.tree.tiles.lemma_idx_of(i as int);
                }
                return Ok(self.tree.tiles.entries[i].id);
            }
            i = i + 1;
        }
        proof {
            lemma_first_tabs(self.tree.tiles);
        }
        Err(LayoutError::StructuralError)
    }

    /// The default tabs container used when a dock request carries no
    /// usable target: the first tabs container in arena order.
    pub fn find_main_tabs_container_id(&self) -> (r: Option<TileId>)
        requires
            self.tree.tiles.wf(),
        ensures
            match r {
                Some(t) => first_tabs(self.tree.tiles) == Some(t.0)
                    && self.tree.tiles.is_tabs(t.0),
                None => first_tabs(self.tree.tiles) is None
                    && forall|x: u64| !self.tree.tiles.is_tabs(x),
            },
    {
        match self.find_dock_target() {
            Ok(t) => Some(t),
            Err(_) => None,
        }
    }

    /// All tabs containers, in arena order.
    pub fn find_all_tabs_containers(&self) -> (r: Vec<TileId>)
        requires
            self.tree.tiles.wf(),
        ensures
            forall|t: TileId| r@.contains(t) <==> self.tree.tiles.is_tabs(t.0),
            forall|k: int, l: int| #![trigger r@[k], r@[l]]
                0 <= k < l < r@.len() ==> r@[k] != r@[l],
    {
        let n = self.tree.tiles.entries.len();
        let mut out: Vec<TileId> = Vec::new();
        let mut i: usize = 0;
        while i < n
            invariant
                self.tree.tiles.wf(),
                n == self.tree.tiles.num(),
                0 <= i <= n,
                forall|t: TileId| out@.contains(t) <==> exists|j: int|
                    0 <= j < i && (#[trigger] self.tree.tiles.tile_at(j)).is_tabs()
                        && self.tree.tiles.id_at(j) == t.0,
                forall|k: int, l: int| #![trigger out@[k], out@[l]]
                    0 <= k < l < out@.len() ==> out@[k] != out@[l],
            decreases n - i,
        {
            let is_tabs = match &self.tree.tiles.entries[i].tile {
                Tile::Container(Container::Tabs(_)) => true,
                _ => false,
            };
            let ghost out0 = out@;
            if is_tabs {
                let id = self.tree.tiles.entries[i].id;
                proof {
                    self.tree.tiles.lemma_idx_of(i as int);
                }
                out.push(id);
                proof {
                    assert(out@ == out0.push(id));
                    assert forall|t: TileId| out@.contains(t) implies exists|j: int|
                        0 <= j < i as int + 1
                        && (#[trigger] self.tree.tiles.tile_at(j)).is_tabs()
                        && self.tree.tiles.id_at(j) == t.0 by {
                        let w = choose|w: int| 0 <= w < out@.len() && out@[w] == t;
                        if w < out0.len() {
                            assert(out0[w] == t);
                            assert(out0.contains(t));
                        } else {
                            assert(t == id);
                            assert(self.tree.tiles.tile_at(i as int).is_tabs()
                                && self.tree.tiles.id_at(i as int) == t.0);
                        }
                    }
                    assert forall|t: TileId| (exists|j: int|
                        0 <= j < i as int + 1
                        && (#[trigger] self.tree.tiles.tile_at(j)).is_tabs()
                        && self.tree.tiles.id_at(j) == t.0) implies out@.contains(t) by {
                        let j = choose|j: int| 0 <= j < i as int + 1
                            && (#[trigger] self.tree.tiles.tile_at(j)).is_tabs()
                            && self.tree.tiles.id_at(j) == t.0;
                        if j < i as int {
                            assert(out0.contains(t));
                            let w = choose|w: int| 0 <= w < out0.len() && out0[w] == t;
                            assert(out@[w] == t);
                        } else {
                            assert(t.0 == id.0);
                            assert(out@[out@.len() - 1] == id);
                        }
                    }
                    // The distinctness of ids keeps the output free of
                    // duplicates.
                    assert forall|k: int, l: int| #![trigger out@[k], out@[l]]
                        0 <= k < l < out@.len() implies out@[k] != out@[l] by {
                        if l < out0.len() {
                            assert(out0[k] == out@[k] && out0[l] == out@[l]);
                        } else {
                            assert(out@[k] == out0[k]);
                            assert(out0.contains(out0[k]));
                            if out0[k] == id {
                                let j = choose|j: int| 0 <= j < i as int
                                    && (#[trigger] self.tree.tiles.tile_at(j)).is_tabs()
                                    && self.tree.tiles.id_at(j) == id.0;
                                assert(self.tree.tiles.id_at(j)
                                    != self.tree.tiles.id_at(i as int));
                            }
                        }
                    }
                }
            } else {
                proof {
                    assert forall|t: TileId| (exists|j: int|
                        0 <= j < i as int + 1
                        && (#[trigger] self.tree.tiles.tile_at(j)).is_tabs()
                        && self.tree.tiles.id_at(j) == t.0) implies out@.contains(t) by {
                        let j = choose|j: int| 0 <= j < i as int + 1
                            && (#[trigger] self.tree.tiles.tile_at(j)).is_tabs()
                            && self.tree.tiles.id_at(j) == t.0;
                        assert(j < i as int);
                    }
                }
            }
            i = i + 1;
        }
        proof {
            assert forall|t: TileId| out@.contains(t) implies self.tree.tiles.is_tabs(t.0) by {
                let j = choose|j: int| 0 <= j < n
                    && (#[trigger] self.tree.tiles.tile_at(j)).is_tabs()
                    && self.tree.tiles.id_at(j) == t.0;
                self.tree.tiles.lemma_idx_of(j);
            }
            assert forall|t: TileId| self.tree.tiles.is_tabs(t.0) implies out@.contains(t) by {
                let j = self.tree.tiles.idx_of(t.0);
                assert(self.tree.tiles.tile_at(j).is_tabs()
                    && self.tree.tiles.id_at(j) == t.0);
            }
        }
        out
    }

    /// The tabs container nearest a drop position.  All candidates sit at
    /// the same distance from the fixed reference point used here, so this
    /// resolves to the first tabs container that has a child, and to the
    /// first tabs container of all when every one is empty.
    pub fn find_nearest_tabs_container(&self, _position: Pos) -> (r: Option<TileId>)
        requires
            self.tree.tiles.wf(),
        ensures
            r == (match first_occupied_tabs(self.tree.tiles) {
                Some(x) => Some(TileId(x)),
                None => match first_tabs(self.tree.tiles) {
                    Some(x) => Some(TileId(x)),
                    None => None::<TileId>,
                },
            }),
            match r {
                Some(t) => self.tree.tiles.is_tabs(t.0),
                None => forall|x: u64| !self.tree.tiles.is_tabs(x),
            },
    {
        let n = self.tree.tiles.entries.len();
        let mut i: usize = 0;
        while i < n
            invariant
                self.tree.tiles.wf(),
                n == self.tree.tiles.num(),
                0 <= i <= n,
                first_occupied_tabs(self.tree.tiles)
                    == first_occupied_tabs_from(self.tree.tiles, i as int),
            decreases n - i,
        {
            let occupied = match &self.tree.tiles.entries[i].tile {
                Tile::Container(Container::Tabs(t)) => t.children.len() > 0,
                _ => false,
            };
            if occupied {
                proof {
                    self.tree.tiles.lemma_idx_of(i as int);
                }
                return Some(self.tree.tiles.entries[i].id);
            }
            i = i + 1;
        }
        // No tabs container holds a child; fall back to the first of all.
        match self.find_dock_target() {
            Ok(t) => Some(t),
            Err(_) => None,
        }
    }

    /// Shared mechanics of undocking and closing a docked pane: verify it is
    /// an unpinned pane with a parent, detach it, record it as floating
    /// (visible or hidden), and simplify the parent.
    fn detach_tile(&mut self, tile_id: TileId, open: bool) -> (r: Result<(), LayoutError>)
        requires
            old(self).wf(),
        ensures
            final(self).wf(),
            detach_cases_post(*old(self), *final(self), tile_id, open, r),
    {
        let ghost pre = *self;
        // The tile must be a pane, and not pinned.
        let pinned = match self.tree.tiles.get(tile_id) {
            Some(Tile::Pane(p)) => p.is_permanent,
            _ => {
                return Err(LayoutError::StructuralError);
            },
        };
        if pinned {
            return Err(LayoutError::PermissionError);
        }
        // A pane without a parent is the root or dangling; refuse.
        let parent = match self.tree.find_parent_of(tile_id) {
            Some(p) => p,
            None => {
                return Err(LayoutError::StructuralError);
            },
        };
        self.tree.tiles.remove_child(parent, tile_id);
        proof {
            assert(self.tree.tiles.tile_of(tile_id.0) == pre.tree.tiles.tile_of(tile_id.0));
        }
        let removed = self.tree.tiles.remove(tile_id);
        let panel = match removed {
            Some(Tile::Pane(p)) => p,
            _ => {
                proof {
                    assert(false);
                }
                MockPanel::new(0, "", false)
            },
        };
        let pid = panel.id;
        let rect = if open {
            Some(self.get_default_rect(panel.title.as_str()))
        } else {
            None
        };
        let record = FloatingPanelState::new(panel, open, rect, Some(parent));
        self.floating_panels.insert(pid, record);
        let ghost mid = self.tree;
        proof {
            assert(mid.root == pre.tree.root);
            assert(detach_post(pre.tree, mid, tile_id));
        }
        let opts = self.options;
        self.tree.simplify(parent, &opts);
        proof {
            let post = *self;
            let q = pre.tree.tiles.panel_of(tile_id.0);
            // Every pane of the final tree already existed before the detach.
            assert forall|x: u64| #![auto] post.tree.tiles.is_pane(x) implies
                pre.tree.tiles.is_pane(x)
                && post.tree.tiles.panel_of(x) == pre.tree.tiles.panel_of(x) by {
                assert(mid.tiles.contains(x));
                if !mid.tiles.is_pane(x) {
                    assert(!post.tree.tiles.is_pane(x));
                }
                assert(mid.tiles.is_pane(x));
                assert(post.tree.tiles.tile_of(x) == mid.tiles.tile_of(x));
                assert(x != tile_id.0);
                assert(x != pre.tree.tiles.parent_of(tile_id.0)) by {
                    if x == pre.tree.tiles.parent_of(tile_id.0) {
                        assert(mid.tiles.is_container(x));
                    }
                }
            }
            lemma_panes_unique_preserved(pre.tree.tiles, post.tree.tiles);
            // The detached panel is nowhere in the final tree.
            assert(!post.tree.tiles.has_panel(pid)) by {
                if post.tree.tiles.has_panel(pid) {
                    assert(mid.tiles.has_panel(pid));
                    mid.tiles.lemma_has_panel_witness(pid);
                    let a = choose|a: u64| #![auto] mid.tiles.is_pane(a)
                        && mid.tiles.panel_of(a).id == pid;
                    assert(a != tile_id.0);
                    assert(pre.tree.tiles.is_pane(a)
                        && pre.tree.tiles.panel_of(a).id == pid) by {
                        assert(pre.tree.tiles.contains(a));
                        assert(a != pre.tree.tiles.parent_of(tile_id.0)) by {
                            if a == pre.tree.tiles.parent_of(tile_id.0) {
                                assert(mid.tiles.is_container(a));
                            }
                        }
                    }
                    assert(pre.tree.tiles.panel_of(a).id
                        != pre.tree.tiles.panel_of(tile_id.0).id);
                }
            }
            // No other panel moved, so exclusivity survives.
            assert forall|x: u32| !(post.tree.tiles.has_panel(x)
                && #[trigger] post.floating_panels.contains_key(x)) by {
                if post.floating_panels.contains_key(x) && x != pid {
                    assert(pre.floating_panels.contains_key(x));
                    assert(!pre.tree.tiles.has_panel(x));
                    if post.tree.tiles.has_panel(x) {
                        assert(mid.tiles.has_panel(x));
                        mid.tiles.lemma_has_panel_witness(x);
                        let a = choose|a: u64| #![auto] mid.tiles.is_pane(a)
                            && mid.tiles.panel_of(a).id == x;
                        assert(pre.tree.tiles.is_pane(a)
                            && pre.tree.tiles.panel_of(a).id == x) by {
                            assert(pre.tree.tiles.contains(a));
                            assert(a != pre.tree.tiles.parent_of(tile_id.0)) by {
                                if a == pre.tree.tiles.parent_of(tile_id.0) {
                                    assert(mid.tiles.is_container(a));
                                }
                            }
                        }
                        pre.tree.tiles.lemma_pane_has_panel(a);
                    }
                }
            }
            assert(post.wf());
            assert(detach_ok_post(pre, post, tile_id, open));
        }
        Ok(())
    }

    /// Dock the floating panel `panel_id` at an explicitly resolved tabs
    /// container.  The target is validated again at mutation time: when it
    /// has vanished or is not a tabs container, the just-inserted pane is
    /// pulled back out and the panel is restored as a visible floating
    /// window with its prior geometry, so the panel is never lost.
    pub fn dock_panel_at(&mut self, panel_id: u32, target: TileId) -> (r: Result<
        (),
        LayoutError,
    >)
        requires
            old(self).wf(),
            old(self).tree.tiles.can_allocate(1),
        ensures
            final(self).wf(),
            dock_at_post(*old(self), *final(self), panel_id, target, r),
    {
        let ghost pre = *self;
        let fs = match self.floating_panels.remove(panel_id) {
            Some(s) => s,
            None => {
                return Err(LayoutError::StructuralError);
            },
        };
        let rect_backup = fs.rect;
        let lp_backup = fs.last_parent_id;
        proof {
            assert(fs.panel.id == panel_id);
            assert(!pre.tree.tiles.has_panel(panel_id));
        }
        let h = self.tree.tiles.insert_pane(fs.panel);
        let is_tabs_target = match self.tree.tiles.get(target) {
            Some(Tile::Container(Container::Tabs(_))) => true,
            _ => false,
        };
        proof {
            assert(is_tabs_target == pre.tree.tiles.is_tabs(target.0)) by {
                if pre.tree.tiles.contains(target.0) {
                    assert(self.tree.tiles.tile_of(target.0)
                        == pre.tree.tiles.tile_of(target.0));
                }
                if self.tree.tiles.contains(target.0) && target.0 != h.0 {
                    assert(pre.tree.tiles.contains(target.0));
                }
                if target.0 == h.0 {
                    assert(self.tree.tiles.is_pane(h.0));
                    assert(!pre.tree.tiles.contains(h.0));
                }
            }
        }
        if is_tabs_target {
            proof {
                self.tree.tiles.lemma_id_range(target.0);
                assert(target.0 < crate::tiles::HANDLE_ORIGIN <= h.0);
            }
            self.tree.tiles.tabs_add_child(target, h);
            proof {
                let cs = self.tree.tiles.children_of(target.0);
                assert(cs[cs.len() - 1] == h);
                assert(cs.contains(h));
            }
            self.tree.tiles.tabs_set_active(target, h);
            proof {
                self.dock_wf_after_append(pre, panel_id, h);
                assert(append_pane_post(pre, *self, panel_id, target.0));
            }
            Ok(())
        } else {
            // Recovery: pull the pane back out and restore the record.
            let ghost s1 = self.tree.tiles;
            proof {
                s1.lemma_idx_of(s1.num() - 1);
                assert(s1.id_at(s1.num() - 1) == h.0);
                assert(s1.idx_of(h.0) == s1.num() - 1);
            }
            let removed = self.tree.tiles.remove(h);
            let panel = match removed {
                Some(Tile::Pane(p)) => p,
                _ => {
                    proof {
                        assert(false);
                    }
                    MockPanel::new(0, "", false)
                },
            };
            let rect = match rect_backup {
                Some(rc) => Some(rc),
                None => Some(self.get_default_rect(panel.title.as_str())),
            };
            let record = FloatingPanelState::new(panel, true, rect, lp_backup);
            self.floating_panels.insert(panel_id, record);
            proof {
                let post = *self;
                // Pushing the pane and removing it again leaves the arena's
                // entries exactly as they were.
                assert(s1.entries@ == pre.tree.tiles.entries@.push(
                    crate::tiles::TileEntry { id: h, tile: Tile::Pane(fs.panel) },
                ));
                s1.entries@.remove_ensures(s1.num() - 1);
                assert(post.tree.tiles.entries@ =~= pre.tree.tiles.entries@);
                assert forall|x: u32| post.tree.tiles.has_panel(x)
                    implies pre.tree.tiles.has_panel(x) by {
                    let i = choose|i: int| 0 <= i < post.tree.tiles.num()
                        && (#[trigger] post.tree.tiles.tile_at(i)).is_pane()
                        && post.tree.tiles.tile_at(i).spec_panel().id == x;
                    assert(pre.tree.tiles.tile_at(i) == post.tree.tiles.tile_at(i));
                    assert(pre.tree.tiles.tile_at(i).is_pane()
                        && pre.tree.tiles.tile_at(i).spec_panel().id == x);
                }
                assert forall|x: u32| !(post.tree.tiles.has_panel(x)
                    && #[trigger] post.floating_panels.contains_key(x)) by {
                    if x != panel_id && post.floating_panels.contains_key(x) {
                        assert(pre.floating_panels.contains_key(x));
                    }
                    if x == panel_id {
                        assert(!pre.tree.tiles.has_panel(x));
                    }
                }
                assert(panes_unique(post.tree.tiles)) by {
                    lemma_panes_unique_preserved(pre.tree.tiles, post.tree.tiles);
                }
                assert(post.tree.tiles.wf()) by {
                    assert forall|i: int| 0 <= i < post.tree.tiles.num()
                        implies #[trigger] post.tree.tiles.entry_wf(i) by {
                        assert(pre.tree.tiles.entry_wf(i));
                    }
                }
                assert(post.wf());
                assert(dock_recover_post(pre, post, panel_id));
            }
            Err(LayoutError::StructuralError)
        }
    }

    /// Registry exclusivity and pane uniqueness after a fresh pane holding
    /// the formerly floating panel `pid` was appended somewhere: the tree
    /// and registry stay disjoint.
    proof fn dock_wf_after_append(self, pre: DockState, pid: u32, h: TileId)
        requires
            pre.wf(),
            pre.floating_panels.contains_key(pid),
            pre.floating_panels.state_of(pid).panel.id == pid,
            self.options == pre.options,
            self.tree.tiles.wf(),
            self.tree.root == pre.tree.root,
            self.floating_panels.wf(),
            forall|x: u64| self.tree.tiles.contains(x)
                <==> (pre.tree.tiles.contains(x) || x == h.0),
            !pre.tree.tiles.contains(h.0),
            self.tree.tiles.is_pane(h.0),
            self.tree.tiles.panel_of(h.0) == pre.floating_panels.state_of(pid).panel,
            forall|x: u64| #![auto] self.tree.tiles.contains(x) && x != h.0
                ==> self.tree.tiles.tile_of(x) == pre.tree.tiles.tile_of(x)
                    || self.tree.tiles.tile_of(x) is Container,
            forall|x: u64| #![auto] pre.tree.tiles.is_pane(x)
                ==> self.tree.tiles.tile_of(x) == pre.tree.tiles.tile_of(x),
            forall|x: u32| self.floating_panels.contains_key(x)
                <==> (pre.floating_panels.contains_key(x) && x != pid),
            forall|x: u32| pre.floating_panels.contains_key(x) && x != pid
                ==> self.floating_panels.state_of(x) == pre.floating_panels.state_of(x),
            forall|c: u64| self.tree.tiles.is_child(c)
                <==> (pre.tree.tiles.is_child(c) || c == h.0),
        ensures
            self.wf(),
            self.tree.tiles.has_panel(pid),
    {
        assert forall|x: u64| #![auto] self.tree.tiles.is_pane(x) && x != h.0 implies
            pre.tree.tiles.is_pane(x)
            && self.tree.tiles.panel_of(x) == pre.tree.tiles.panel_of(x) by {
            assert(pre.tree.tiles.contains(x));
            if self.tree.tiles.tile_of(x) is Container {
            } else {
                assert(self.tree.tiles.tile_of(x) == pre.tree.tiles.tile_of(x));
            }
        }
        assert(panes_unique(self.tree.tiles)) by {
            assert forall|a: u64, b: u64|
                #![trigger self.tree.tiles.panel_of(a), self.tree.tiles.panel_of(b)]
                self.tree.tiles.is_pane(a) && self.tree.tiles.is_pane(b) && a != b
                implies self.tree.tiles.panel_of(a).id != self.tree.tiles.panel_of(b).id by {
                if a != h.0 && b != h.0 {
                    assert(pre.tree.tiles.panel_of(a).id != pre.tree.tiles.panel_of(b).id);
                } else if a == h.0 {
                    if self.tree.tiles.panel_of(b).id == pid {
                        pre.tree.tiles.lemma_pane_has_panel(b);
                        assert(pre.tree.tiles.has_panel(pid));
                        assert(false);
                    }
                } else {
                    if self.tree.tiles.panel_of(a).id == pid {
                        pre.tree.tiles.lemma_pane_has_panel(a);
                        assert(pre.tree.tiles.has_panel(pid));
                        assert(false);
                    }
                }
            }
        }
        self.tree.tiles.lemma_pane_has_panel(h.0);
        assert forall|x: u32| !(self.tree.tiles.has_panel(x)
            && #[trigger] self.floating_panels.contains_key(x)) by {
            if self.floating_panels.contains_key(x) {
                assert(pre.floating_panels.contains_key(x) && x != pid);
                assert(!pre.tree.tiles.has_panel(x));
                if self.tree.tiles.has_panel(x) {
                    self.tree.tiles.lemma_has_panel_witness(x);
                    let a = choose|a: u64| #![auto] self.tree.tiles.is_pane(a)
                        && self.tree.tiles.panel_of(a).id == x;
                    assert(a != h.0);
                    pre.tree.tiles.lemma_pane_has_panel(a);
                }
            }
        }
        assert(self.tree.root_ok()) by {
            match self.tree.root {
                Some(rt) => {
                    assert(pre.tree.tiles.contains(rt.0));
                    assert(rt.0 != h.0);
                    assert(!pre.tree.tiles.is_child(rt.0));
                },
                None => {},
            }
        }
    }

    /// Re-embed the floating panel `panel_id` into the tree.  The target is
    /// resolved in tie-break order: the panel's last parent if it is still
    /// a tabs container, else the first tabs container found by arena
    /// traversal, else a brand-new tabs container synthesized as the root
    /// (discarding any existing non-tabs root).  With the panel in the
    /// registry this always succeeds.
    pub fn handle_dock_panel(&mut self, panel_id: u32) -> (r: Result<(), LayoutError>)
        requires
            old(self).wf(),
            old(self).tree.tiles.can_allocate(2),
        ensures
            final(self).wf(),
            dock_post(*old(self), *final(self), panel_id, r),
    {
        let ghost pre = *self;
        let lp = match self.floating_panels.get(panel_id) {
            Some(st) => st.last_parent_id,
            None => {
                return Err(LayoutError::StructuralError);
            },
        };
        let target_opt = match lp {
            Some(lp_id) => {
                let valid = match self.tree.tiles.get(lp_id) {
                    Some(Tile::Container(Container::Tabs(_))) => true,
                    _ => false,
                };
                if valid {
                    Some(lp_id)
                } else {
                    match self.find_dock_target() {
                        Ok(t) => Some(t),
                        Err(_) => None,
                    }
                }
            },
            None => {
                match self.find_dock_target() {
                    Ok(t) => Some(t),
                    Err(_) => None,
                }
            },
        };
        match target_opt {
            Some(target) => {
                proof {
                    assert(pre.tree.tiles.is_tabs(target.0));
                    assert(dock_target_of(pre, panel_id) == Some(target.0));
                }
                let r = self.dock_panel_at(panel_id, target);
                proof {
                    assert(r == Ok::<(), LayoutError>(()));
                }
                r
            },
            None => {
                proof {
                    assert(dock_target_of(pre, panel_id) is None);
                }
                // No tabs container anywhere: synthesize a fresh tabs root
                // holding only this pane.
                let fs = match self.floating_panels.remove(panel_id) {
                    Some(s) => s,
                    None => {
                        proof {
                            assert(false);
                        }
                        return Err(LayoutError::StructuralError);
                    },
                };
                proof {
                    assert(fs.panel.id == panel_id);
                    assert(!pre.tree.tiles.has_panel(panel_id));
                }
                let rt = self.tree.tiles.insert_tab_tile(Vec::new());
                let h = self.tree.tiles.insert_pane(fs.panel);
                proof {
                    assert(rt.0 < crate::tiles::HANDLE_ORIGIN <= h.0);
                }
                self.tree.tiles.tabs_add_child(rt, h);
                proof {
                    let cs = self.tree.tiles.children_of(rt.0);
                    assert(cs[cs.len() - 1] == h);
                    assert(cs.contains(h));
                }
                self.tree.tiles.tabs_set_active(rt, h);
                self.tree.root = Some(rt);
                proof {
                    let post = *self;
                    assert(post.tree.tiles.children_of(rt.0) =~= seq![TileId(h.0)]);
                    assert forall|x: u64| #![auto] post.tree.tiles.is_pane(x) && x != h.0
                        implies pre.tree.tiles.is_pane(x)
                        && post.tree.tiles.panel_of(x) == pre.tree.tiles.panel_of(x) by {
                        assert(x != rt.0);
                        assert(pre.tree.tiles.contains(x));
                        assert(post.tree.tiles.tile_of(x) == pre.tree.tiles.tile_of(x));
                    }
                    assert(panes_unique(post.tree.tiles)) by {
                        assert forall|a: u64, b: u64|
                            #![trigger post.tree.tiles.panel_of(a), post.tree.tiles.panel_of(b)]
                            post.tree.tiles.is_pane(a) && post.tree.tiles.is_pane(b) && a != b
                            implies post.tree.tiles.panel_of(a).id
                                != post.tree.tiles.panel_of(b).id by {
                            if a != h.0 && b != h.0 {
                                assert(pre.tree.tiles.panel_of(a).id
                                    != pre.tree.tiles.panel_of(b).id);
                            } else if a == h.0 {
                                if post.tree.tiles.panel_of(b).id == panel_id {
                                    pre.tree.tiles.lemma_pane_has_panel(b);
                                    assert(false);
                                }
                            } else {
                                if post.tree.tiles.panel_of(a).id == panel_id {
                                    pre.tree.tiles.lemma_pane_has_panel(a);
                                    assert(false);
                                }
                            }
                        }
                    }
                    assert forall|x: u32| !(post.tree.tiles.has_panel(x)
                        && #[trigger] post.floating_panels.contains_key(x)) by {
                        if post.floating_panels.contains_key(x) {
                            assert(pre.floating_panels.contains_key(x) && x != panel_id);
                            assert(!pre.tree.tiles.has_panel(x));
                            if post.tree.tiles.has_panel(x) {
                                post.tree.tiles.lemma_has_panel_witness(x);
                                let a = choose|a: u64| #![auto] post.tree.tiles.is_pane(a)
                                    && post.tree.tiles.panel_of(a).id == x;
                                assert(a != h.0);
                                pre.tree.tiles.lemma_pane_has_panel(a);
                            }
                        }
                    }
                    assert(post.tree.root_ok()) by {
                        assert(post.tree.tiles.contains(rt.0));
                        assert(!post.tree.tiles.is_child(rt.0));
                    }
                    assert(post.wf());
                    assert(dock_new_root_post(pre, post, panel_id));
                }
                Ok(())
            },
        }
    }

    /// Re-embed the floating panel `panel_id`, preferring an explicitly
    /// hinted target.  The hint is advisory only: when it does not name a
    /// live tabs container, the default resolution applies, and with no
    /// tabs container anywhere the request fails without touching
    /// anything.  The drop position is advisory as well and currently does
    /// not influence the outcome.
    pub fn handle_dock_panel_to_target(
        &mut self,
        panel_id: u32,
        target_id: Option<TileId>,
        _position: Option<Pos>,
    ) -> (r: Result<(), LayoutError>)
        requires
            old(self).wf(),
            old(self).tree.tiles.can_allocate(2),
        ensures
            final(self).wf(),
            dock_to_target_post(*old(self), *final(self), panel_id, target_id, r),
    {
        let ghost pre = *self;
        if !self.floating_panels.contains(panel_id) {
            return Err(LayoutError::StructuralError);
        }
        let hint_valid = match target_id {
            Some(t) => {
                match self.tree.tiles.get(t) {
                    Some(Tile::Container(Container::Tabs(_))) => true,
                    _ => false,
                }
            },
            None => false,
        };
        let target = if hint_valid {
            match target_id {
                Some(t) => t,
                None => {
                    proof {
                        assert(false);
                    }
                    TileId(0)
                },
            }
        } else {
            match self.find_dock_target() {
                Ok(t) => t,
                Err(_) => {
                    return Err(LayoutError::StructuralError);
                },
            }
        };
        let r = self.dock_panel_at(panel_id, target);
        proof {
            assert(r == Ok::<(), LayoutError>(()));
        }
        r
    }

    /// Show the hidden floating panel `panel_id` again.  If its remembered
    /// parent is still a valid tabs container the panel redocks there (with
    /// the same recovery guarantees as docking); otherwise it reopens as a
    /// visible floating window, with a default geometry if none was stored.
    /// A no-op on a panel that is already open.
    pub fn handle_reopen_panel(&mut self, panel_id: u32) -> (r: Result<(), LayoutError>)
        requires
            old(self).wf(),
            old(self).tree.tiles.can_allocate(2),
        ensures
            final(self).wf(),
            reopen_post(*old(self), *final(self), panel_id, r),
    {
        let ghost pre = *self;
        let (is_open, lp) = match self.floating_panels.get(panel_id) {
            Some(st) => (st.is_open, st.last_parent_id),
            None => {
                return Err(LayoutError::StructuralError);
            },
        };
        if is_open {
            return Ok(());
        }
        let lp_valid = match lp {
            Some(lp_id) => {
                match self.tree.tiles.get(lp_id) {
                    Some(Tile::Container(Container::Tabs(_))) => true,
                    _ => false,
                }
            },
            None => false,
        };
        if lp_valid {
            let lp_id = match lp {
                Some(l) => l,
                None => {
                    proof {
                        assert(false);
                    }
                    TileId(0)
                },
            };
            let r = self.dock_panel_at(panel_id, lp_id);
            proof {
                assert(r == Ok::<(), LayoutError>(()));
            }
            r
        } else {
            let fs = match self.floating_panels.remove(panel_id) {
                Some(s) => s,
                None => {
                    proof {
                        assert(false);
                    }
                    return Err(LayoutError::StructuralError);
                },
            };
            let rect = match fs.rect {
                Some(rc) => Some(rc),
                None => Some(self.get_default_rect(fs.panel.title.as_str())),
            };
            let record = FloatingPanelState::new(fs.panel, true, rect, None);
            self.floating_panels.insert(panel_id, record);
            proof {
                let post = *self;
                assert(fs.panel.id == panel_id);
                assert forall|x: u32| !(post.tree.tiles.has_panel(x)
                    && #[trigger] post.floating_panels.contains_key(x)) by {
                    if post.floating_panels.contains_key(x) {
                        assert(pre.floating_panels.contains_key(x));
                    }
                }
                assert(post.wf());
            }
            Ok(())
        }
    }

    /// Detach the docked pane under `tile_id` into a visible floating
    /// window with a default geometry, remembering its parent for smart
    /// redocking.  Fails without mutating anything when the tile is not an
    /// unpinned pane with a parent.
    pub fn handle_undock_panel(&mut self, tile_id: TileId) -> (r: Result<(), LayoutError>)
        requires
            old(self).wf(),
        ensures
            final(self).wf(),
            undock_post(*old(self), *final(self), tile_id, r),
    {
        self.detach_tile(tile_id, true)
    }

    /// Close the docked pane under `tile_id`: it leaves the tree and
    /// becomes a hidden floating record that remembers its parent.  Fails
    /// without mutating anything when the tile is not an unpinned pane with
    /// a parent.
    pub fn handle_close_from_tree(&mut self, tile_id: TileId) -> (r: Result<(), LayoutError>)
        requires
            old(self).wf(),
        ensures
            final(self).wf(),
            close_from_tree_post(*old(self), *final(self), tile_id, r),
    {
        self.detach_tile(tile_id, false)
    }

    /// Close a panel in either state: with a tile handle it closes the
    /// docked pane under that handle, without one it hides the panel's
    /// floating window.
    pub fn handle_close_panel(&mut self, panel_id: u32, tile_id: Option<TileId>) -> (r: Result<
        (),
        LayoutError,
    >)
        requires
            old(self).wf(),
        ensures
            final(self).wf(),
            match tile_id {
                Some(t) => close_from_tree_post(*old(self), *final(self), t, r),
                None => close_floating_post(*old(self), *final(self), panel_id, r),
            },
    {
        match tile_id {
            Some(t) => self.handle_close_from_tree(t),
            None => self.handle_close_floating(panel_id),
        }
    }

    /// Hide the visible floating window of panel `panel_id`; its geometry
    /// and remembered parent are retained.  A no-op (reported as success)
    /// when the panel is already hidden; fails on a pinned panel.
    pub fn handle_close_floating(&mut self, panel_id: u32) -> (r: Result<(), LayoutError>)
        requires
            old(self).wf(),
        ensures
            final(self).wf(),
            close_floating_post(*old(self), *final(self), panel_id, r),
    {
        let ghost pre = *self;
        let (pinned, is_open) = match self.floating_panels.get(panel_id) {
            Some(st) => (st.panel.is_permanent, st.is_open),
            None => {
                return Err(LayoutError::StructuralError);
            },
        };
        if pinned {
            return Err(LayoutError::PermissionError);
        }
        if !is_open {
            return Ok(());
        }
        let fs = match self.floating_panels.remove(panel_id) {
            Some(s) => s,
            None => {
                proof {
                    assert(false);
                }
                return Err(LayoutError::StructuralError);
            },
        };
        let record = FloatingPanelState::new(fs.panel, false, fs.rect, fs.last_parent_id);
        self.floating_panels.insert(panel_id, record);
        proof {
            let post = *self;
            assert(fs.panel.id == panel_id);
            assert forall|x: u32| !(post.tree.tiles.has_panel(x)
                && #[trigger] post.floating_panels.contains_key(x)) by {
                if post.floating_panels.contains_key(x) {
                    assert(pre.floating_panels.contains_key(x));
                }
            }
            assert(post.wf());
        }
        Ok(())
    }

    /// Make the pane under `tile_id` the active tab of its parent tabs
    /// container.  Fails without mutating anything when the tile has no
    /// parent or its parent is not a tabs container.
    pub fn handle_request_activate_tab(&mut self, tile_id: TileId) -> (r: Result<
        (),
        LayoutError,
    >)
        requires
            old(self).wf(),
        ensures
            final(self).wf(),
            activate_tab_post(*old(self), *final(self), tile_id, r),
    {
        let ghost pre = *self;
        let parent = match self.tree.find_parent_of(tile_id) {
            Some(p) => p,
            None => {
                return Err(LayoutError::StructuralError);
            },
        };
        let parent_tabs = match self.tree.tiles.get(parent) {
            Some(Tile::Container(Container::Tabs(_))) => true,
            _ => false,
        };
        if !parent_tabs {
            return Err(LayoutError::StructuralError);
        }
        self.tree.tiles.tabs_set_active(parent, tile_id);
        proof {
            let post = *self;
            assert forall|x: u64| #![auto] post.tree.tiles.is_pane(x) implies
                pre.tree.tiles.is_pane(x)
                && post.tree.tiles.panel_of(x) == pre.tree.tiles.panel_of(x) by {
                assert(x != parent.0);
                assert(post.tree.tiles.tile_of(x) == pre.tree.tiles.tile_of(x));
            }
            lemma_panes_unique_preserved(pre.tree.tiles, post.tree.tiles);
            assert forall|x: u32| post.tree.tiles.has_panel(x)
                implies pre.tree.tiles.has_panel(x) by {
                post.tree.tiles.lemma_has_panel_witness(x);
                let a = choose|a: u64| #![auto] post.tree.tiles.is_pane(a)
                    && post.tree.tiles.panel_of(a).id == x;
                pre.tree.tiles.lemma_pane_has_panel(a);
            }
            assert forall|x: u32| !(post.tree.tiles.has_panel(x)
                && #[trigger] post.floating_panels.contains_key(x)) by {
                if post.floating_panels.contains_key(x) && post.tree.tiles.has_panel(x) {
                    assert(pre.tree.tiles.has_panel(x));
                }
            }
            assert(post.tree.root_ok()) by {
                match post.tree.root {
                    Some(rt) => {
                        assert(pre.tree.tiles.contains(rt.0));
                    },
                    None => {},
                }
            }
            assert(post.wf());
        }
        Ok(())
    }

    /// Dispatch one structural-change request to its handler.  Every
    /// request either succeeds or fails with a structured error after local
    /// recovery; the session is left well-formed either way.
    pub fn process_ui_event(&mut self, event: UIEvent) -> (r: Result<(), LayoutError>)
        requires
            old(self).wf(),
            old(self).tree.tiles.can_allocate(2),
        ensures
            final(self).wf(),
            step_post(*old(self), *final(self), event, r),
    {
        match event {
            UIEvent::ClosePanelFromTree { tile_id } => self.handle_close_from_tree(tile_id),
            UIEvent::ClosePanelFloating { panel_id } => self.handle_close_floating(panel_id),
            UIEvent::ReopenPanel { panel_id } => self.handle_reopen_panel(panel_id),
            UIEvent::DockPanel { panel_id } => self.handle_dock_panel(panel_id),
            UIEvent::DockPanelToTarget { panel_id, target_id, position } =>
                self.handle_dock_panel_to_target(panel_id, target_id, position),
            UIEvent::UndockPanel { tile_id } => self.handle_undock_panel(tile_id),
            UIEvent::RequestActivateTab { tile_id } => self.handle_request_activate_tab(tile_id),
        }
    }

    /// Drain the queue once, running each event's handler to completion in
    /// enqueue order.  A failed event never aborts the rest of the queue.
    pub fn process_events(&mut self, queue: &mut crate::events::EventQueue)
        requires
            old(self).wf(),
            old(self).tree.tiles.next_container_id >= 2 + old(queue).events@.len(),
            old(self).tree.tiles.next_pane_id + 2 + old(queue).events@.len() <= u64::MAX,
        ensures
            final(self).wf(),
            final(queue).events@ == Seq::<UIEvent>::empty(),
            processed(*old(self), old(queue).events@, *final(self)),
    {
        let ghost pre = *old(self);
        let n = queue.len();
        let mut i: usize = 0;
        while i < n
            invariant
                self.wf(),
                queue.events@ == old(queue).events@,
                n == queue.events@.len(),
                0 <= i <= n,
                self.tree.tiles.next_container_id >= 2 + (n - i),
                self.tree.tiles.next_pane_id + 2 + (n - i) <= u64::MAX,
                processed(pre, queue.events@.take(i as int), *self),
            decreases n - i,
        {
            let ghost cur = *self;
            let event = queue.events[i];
            let r = self.process_ui_event(event);
            proof {
                lemma_step_bounds(cur, *self, event, r);
                lemma_processed_snoc(pre, queue.events@.take(i as int), cur, event, r, *self);
                assert(queue.events@.take(i as int + 1)
                    =~= queue.events@.take(i as int).push(queue.events@[i as int]));
            }
            i = i + 1;
        }
        proof {
            assert(queue.events@.take(n as int) =~= queue.events@);
        }
        queue.events.clear();
    }

    /// A session over an empty tree, an empty registry, and the given
    /// simplification policy.
    pub fn new(options: SimplificationOptions) -> (s: DockState)
        ensures
            s.wf(),
            s.options == options,
            s.tree.root is None,
            s.tree.tiles.num() == 0,
            s.tree.tiles.next_container_id == crate::tiles::HANDLE_ORIGIN,
            s.tree.tiles.next_pane_id == crate::tiles::HANDLE_ORIGIN,
            forall|k: u32| !s.floating_panels.contains_key(k),
            forall|x: u32| !s.is_in_tree(x),
    {
        let s = DockState {
            tree: Tree::empty(),
            floating_panels: FloatingPanels::new(),
            options,
        };
        proof {
            assert forall|x: u32| !s.is_in_tree(x) by {}
        }
        s
    }

    /// The fixed initial configuration the application starts from: the
    /// five built-in panels docked in a horizontal root — a left column
    /// (settings/presets tabs over a stats pane) with share 25, a scene
    /// tabs container with share 45, and a dataset tabs container with
    /// share 30.  All panels start unpinned; nothing floats.
    pub fn initial_layout(options: SimplificationOptions) -> (s: DockState)
        ensures
            s.wf(),
            s.options == options,
            s.tree.root is Some,
            forall|k: u32| !s.floating_panels.contains_key(k),
            s.is_in_tree(PanelId::Scene.spec_key()),
            s.is_in_tree(PanelId::Settings.spec_key()),
            s.is_in_tree(PanelId::Presets.spec_key()),
            s.is_in_tree(PanelId::Stats.spec_key()),
            s.is_in_tree(PanelId::Dataset.spec_key()),
            s.tree.tiles.next_container_id == crate::tiles::HANDLE_ORIGIN - 5,
            s.tree.tiles.next_pane_id == crate::tiles::HANDLE_ORIGIN + 5,
            // The exact arrangement, by the deterministic handles: the root
            // is a horizontal split over the left column, the scene tabs
            // and the dataset tabs, weighted 25/45/30.
            ({
                let origin = crate::tiles::HANDLE_ORIGIN;
                let scene_pane = TileId(origin);
                let settings_pane = TileId((origin + 1) as u64);
                let presets_pane = TileId((origin + 2) as u64);
                let stats_pane = TileId((origin + 3) as u64);
                let dataset_pane = TileId((origin + 4) as u64);
                let settings_tabs = TileId((origin - 1) as u64);
                let left_column = TileId((origin - 2) as u64);
                let scene_tabs = TileId((origin - 3) as u64);
                let dataset_tabs = TileId((origin - 4) as u64);
                let root = TileId((origin - 5) as u64);
                &&& s.tree.root == Some(root)
                &&& s.tree.tiles.children_of(root.0)
                    == seq![left_column, scene_tabs, dataset_tabs]
                &&& s.tree.tiles.shares_of(root.0) == seq![25u64, 45u64, 30u64]
                &&& s.tree.tiles.is_tabs(settings_tabs.0)
                &&& s.tree.tiles.children_of(settings_tabs.0)
                    == seq![settings_pane, presets_pane]
                &&& s.tree.tiles.active_of(settings_tabs.0) == Some(settings_pane)
                &&& s.tree.tiles.children_of(left_column.0) == seq![settings_tabs, stats_pane]
                &&& s.tree.tiles.is_tabs(scene_tabs.0)
                &&& s.tree.tiles.children_of(scene_tabs.0) == seq![scene_pane]
                &&& s.tree.tiles.active_of(scene_tabs.0) == Some(scene_pane)
                &&& s.tree.tiles.is_tabs(dataset_tabs.0)
                &&& s.tree.tiles.children_of(dataset_tabs.0) == seq![dataset_pane]
                &&& s.tree.tiles.is_pane(scene_pane.0)
                &&& s.tree.tiles.panel_of(scene_pane.0).id == PanelId::Scene.spec_key()
                &&& s.tree.tiles.is_pane(stats_pane.0)
                &&& s.tree.tiles.panel_of(stats_pane.0).id == PanelId::Stats.spec_key()
            }),
    {
        let mut tiles = Tiles::new();
        let scene_pane = tiles.insert_pane(
            MockPanel::new(PanelId::Scene.key(), PanelId::Scene.title(), false),
        );
        let settings_pane = tiles.insert_pane(
            MockPanel::new(PanelId::Settings.key(), PanelId::Settings.title(), false),
        );
        let presets_pane = tiles.insert_pane(
            MockPanel::new(PanelId::Presets.key(), PanelId::Presets.title(), false),
        );
        let stats_pane = tiles.insert_pane(
            MockPanel::new(PanelId::Stats.key(), PanelId::Stats.title(), false),
        );
        let dataset_pane = tiles.insert_pane(
            MockPanel::new(PanelId::Dataset.key(), PanelId::Dataset.title(), false),
        );
        // Left side: settings and presets share a tab bar, stats sits below.
        let mut settings_children: Vec<TileId> = Vec::new();
        settings_children.push(settings_pane);
        settings_children.push(presets_pane);
        let settings_tabs = tiles.insert_tab_tile(settings_children);
        let mut left_children: Vec<TileId> = Vec::new();
        left_children.push(settings_tabs);
        left_children.push(stats_pane);
        let left_column = tiles.insert_vertical_tile(left_children);
        // Scene and dataset each get their own tab bar.
        let mut scene_children: Vec<TileId> = Vec::new();
        scene_children.push(scene_pane);
        let scene_tabs = tiles.insert_tab_tile(scene_children);
        let mut dataset_children: Vec<TileId> = Vec::new();
        dataset_children.push(dataset_pane);
        let dataset_tabs = tiles.insert_tab_tile(dataset_children);
        // The root lays the three columns out horizontally.
        let mut root_children: Vec<TileId> = Vec::new();
        root_children.push(left_column);
        root_children.push(scene_tabs);
        root_children.push(dataset_tabs);
        let root = tiles.insert_horizontal_tile(root_children);
        proof {
            assert(tiles.children_of(root.0)[0] == left_column);
            assert(tiles.children_of(root.0)[1] == scene_tabs);
            assert(tiles.children_of(root.0)[2] == dataset_tabs);
            assert(tiles.children_of(root.0).contains(left_column));
            assert(tiles.children_of(root.0).contains(scene_tabs));
            assert(tiles.children_of(root.0).contains(dataset_tabs));
            assert(tiles.shares_of(root.0) =~= seq![1u64, 1u64, 1u64]);
            assert(seq_index_of(tiles.children_of(root.0), left_column) == 0) by {
                let k = seq_index_of(tiles.children_of(root.0), left_column);
                assert(0 <= k < 3 && tiles.children_of(root.0)[k] == left_column);
            }
        }
        tiles.set_share(root, left_column, 25);
        proof {
            assert(seq_index_of(tiles.children_of(root.0), scene_tabs) == 1) by {
                let k = seq_index_of(tiles.children_of(root.0), scene_tabs);
                assert(0 <= k < 3 && tiles.children_of(root.0)[k] == scene_tabs);
            }
        }
        tiles.set_share(root, scene_tabs, 45);
        proof {
            assert(seq_index_of(tiles.children_of(root.0), dataset_tabs) == 2) by {
                let k = seq_index_of(tiles.children_of(root.0), dataset_tabs);
                assert(0 <= k < 3 && tiles.children_of(root.0)[k] == dataset_tabs);
            }
        }
        tiles.set_share(root, dataset_tabs, 30);
        let tree = Tree::new(root, tiles);
        let s = DockState {
            tree,
            floating_panels: FloatingPanels::new(),
            options,
        };
        proof {
            assert(s.tree.tiles.is_pane(scene_pane.0)
                && s.tree.tiles.panel_of(scene_pane.0).id == PanelId::Scene.spec_key());
            s.tree.tiles.lemma_pane_has_panel(scene_pane.0);
            assert(s.tree.tiles.is_pane(settings_pane.0)
                && s.tree.tiles.panel_of(settings_pane.0).id == PanelId::Settings.spec_key());
            s.tree.tiles.lemma_pane_has_panel(settings_pane.0);
            assert(s.tree.tiles.is_pane(presets_pane.0)
                && s.tree.tiles.panel_of(presets_pane.0).id == PanelId::Presets.spec_key());
            s.tree.tiles.lemma_pane_has_panel(presets_pane.0);
            assert(s.tree.tiles.is_pane(stats_pane.0)
                && s.tree.tiles.panel_of(stats_pane.0).id == PanelId::Stats.spec_key());
            s.tree.tiles.lemma_pane_has_panel(stats_pane.0);
            assert(s.tree.tiles.is_pane(dataset_pane.0)
                && s.tree.tiles.panel_of(dataset_pane.0).id == PanelId::Dataset.spec_key());
            s.tree.tiles.lemma_pane_has_panel(dataset_pane.0);
            assert(panes_unique(s.tree.tiles)) by {
                assert forall|a: u64, b: u64|
                    #![trigger s.tree.tiles.panel_of(a), s.tree.tiles.panel_of(b)]
                    s.tree.tiles.is_pane(a) && s.tree.tiles.is_pane(b) && a != b
                    implies s.tree.tiles.panel_of(a).id != s.tree.tiles.panel_of(b).id by {
                    assert(s.tree.tiles.contains(a) && s.tree.tiles.contains(b));
                }
            }
            assert(s.wf());
            assert(s.tree.tiles.children_of(root.0)
                =~= seq![left_column, scene_tabs, dataset_tabs]);
            assert(s.tree.tiles.shares_of(root.0) =~= seq![25u64, 45u64, 30u64]);
            assert(s.tree.tiles.children_of(settings_tabs.0)
                =~= seq![settings_pane, presets_pane]);
            assert(s.tree.tiles.children_of(left_column.0)
                =~= seq![settings_tabs, stats_pane]);
            assert(s.tree.tiles.children_of(scene_tabs.0) =~= seq![scene_pane]);
            assert(s.tree.tiles.children_of(dataset_tabs.0) =~= seq![dataset_pane]);
        }
        s
    }

    /// The diagnostic validation pass run after each tick: it reports
    /// whether every embedded panel is absent from the floating registry,
    /// every referenced child handle resolves to an arena entry, and every
    /// edge leads to a strictly larger handle (so the edges cannot close a
    /// cycle).  It never mutates anything.
    pub fn validate_invariants(&self) -> (r: bool)
        ensures
            r == (self.exclusive() && refs_resolve(self.tree.tiles)
                && edges_ordered(self.tree.tiles)),
    {
        // Exclusivity: no pane's panel may have a floating record.
        let n = self.tree.tiles.entries.len();
        let mut i: usize = 0;
        while i < n
            invariant
                n == self.tree.tiles.num(),
                0 <= i <= n,
                forall|j: int| 0 <= j < i && (#[trigger] self.tree.tiles.tile_at(j)).is_pane()
                    ==> !self.floating_panels.contains_key(
                        self.tree.tiles.tile_at(j).spec_panel().id,
                    ),
            decreases n - i,
        {
            let overlap = match &self.tree.tiles.entries[i].tile {
                Tile::Pane(p) => self.floating_panels.contains(p.id),
                Tile::Container(_) => false,
            };
            if overlap {
                proof {
                    let x = self.tree.tiles.tile_at(i as int).spec_panel().id;
                    assert(self.tree.tiles.has_panel(x));
                    assert(!self.exclusive());
                }
                return false;
            }
            i = i + 1;
        }
        proof {
            assert forall|x: u32| !(self.tree.tiles.has_panel(x)
                && #[trigger] self.floating_panels.contains_key(x)) by {
                if self.tree.tiles.has_panel(x) {
                    let j = choose|j: int| 0 <= j < self.tree.tiles.num()
                        && (#[trigger] self.tree.tiles.tile_at(j)).is_pane()
                        && self.tree.tiles.tile_at(j).spec_panel().id == x;
                    assert(!self.floating_panels.contains_key(x));
                }
            }
        }
        // Shape: every child handle named by a container must resolve, and
        // every edge must lead to a strictly larger handle.
        let mut i: usize = 0;
        while i < n
            invariant
                n == self.tree.tiles.num(),
                0 <= i <= n,
                self.exclusive(),
                forall|j: int, k: int| 0 <= j < i && self.tree.tiles.child_slot(j, k)
                    ==> self.tree.tiles.contains(#[trigger] self.tree.tiles.child_at(j, k))
                        && self.tree.tiles.id_at(j) < self.tree.tiles.child_at(j, k),
            decreases n - i,
        {
            let own_id = self.tree.tiles.entries[i].id;
            match &self.tree.tiles.entries[i].tile {
                Tile::Container(c) => {
                    let cs = c.children();
                    let m = cs.len();
                    let mut k: usize = 0;
                    while k < m
                        invariant
                            n == self.tree.tiles.num(),
                            0 <= i < n,
                            0 <= k <= m,
                            self.tree.tiles.tile_at(i as int) is Container,
                            own_id.0 == self.tree.tiles.id_at(i as int),
                            m == self.tree.tiles.children_at(i as int).len(),
                            cs@ == self.tree.tiles.children_at(i as int),
                            forall|l: int| 0 <= l < k
                                ==> self.tree.tiles.contains(
                                    #[trigger] self.tree.tiles.child_at(i as int, l),
                                ) && self.tree.tiles.id_at(i as int)
                                    < self.tree.tiles.child_at(i as int, l),
                        decreases m - k,
                    {
                        if !self.tree.tiles.contains_tile(cs[k]) {
                            proof {
                                assert(self.tree.tiles.child_slot(i as int, k as int));
                                assert(!self.tree.tiles.contains(
                                    self.tree.tiles.child_at(i as int, k as int),
                                ));
                                assert(!refs_resolve(self.tree.tiles));
                            }
                            return false;
                        }
                        if own_id.0 >= cs[k].0 {
                            proof {
                                assert(self.tree.tiles.child_slot(i as int, k as int));
                                assert(self.tree.tiles.id_at(i as int)
                                    >= self.tree.tiles.child_at(i as int, k as int));
                                assert(!edges_ordered(self.tree.tiles));
                            }
                            return false;
                        }
                        k = k + 1;
                    }
                },
                Tile::Pane(_) => {},
            }
            proof {
                assert forall|k: int| self.tree.tiles.child_slot(i as int, k)
                    implies self.tree.tiles.contains(
                        #[trigger] self.tree.tiles.child_at(i as int, k),
                    ) && self.tree.tiles.id_at(i as int)
                        < self.tree.tiles.child_at(i as int, k) by {}
            }
            i = i + 1;
        }
        proof {
            assert(refs_resolve(self.tree.tiles));
            assert(edges_ordered(self.tree.tiles));
        }
        true
    }
}

} // verus!
