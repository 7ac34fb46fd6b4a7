use vstd::prelude::*;
use crate::session::close_floating_post;
use crate::session::detach_cases_post;
use crate::session::dock_at_post;
use crate::session::dock_post;
use crate::session::reopen_post;
use crate::session::undock_post;
use crate::session::DockState;
use crate::session::LayoutError;
use crate::tiles::TileId;
use crate::tiles::Tiles;

verus! {

/// Exclusivity: at quiescence a managed panel identity is embedded in the
/// tree or present in the floating registry — never both, never neither.
pub proof fn lemma_exclusive_location(s: DockState, pid: u32)
    requires
        s.wf(),
        s.managed(pid),
    ensures
        s.is_in_tree(pid) != s.is_in_registry(pid),
{
}

/// Tree shape: a child handle never has two parents.
pub proof fn lemma_unique_parent(t: Tiles, c: u64, p1: u64, p2: u64)
    requires
        t.wf(),
        t.is_container(p1),
        t.children_of(p1).contains(TileId(c)),
        t.is_container(p2),
        t.children_of(p2).contains(TileId(c)),
    ensures
        p1 == p2,
{
    let k1 = choose|k: int| 0 <= k < t.children_of(p1).len()
        && t.children_of(p1)[k] == TileId(c);
    let i1 = t.idx_of(p1);
    t.lemma_idx_of(i1);
    assert(t.child_slot(i1, k1) && t.child_at(i1, k1) == c);
    t.lemma_parent_of(c);
}

/// Tree shape: every handle referenced in a container's child list
/// resolves to an arena entry, with a strictly larger handle than its
/// parent's.
pub proof fn lemma_children_resolve(t: Tiles, p: u64, k: int)
    requires
        t.wf(),
        t.is_container(p),
        0 <= k < t.children_of(p).len(),
    ensures
        t.contains(t.children_of(p)[k].0),
        p < t.children_of(p)[k].0,
{
    let i = t.idx_of(p);
    t.lemma_idx_of(i);
    assert(t.child_slot(i, k) && t.child_at(i, k) == t.children_of(p)[k].0);
}

/// Tree shape: handles strictly increase along every parent/child chain.
pub proof fn lemma_path_increases(t: Tiles, path: Seq<u64>)
    requires
        t.wf(),
        path.len() >= 2,
        forall|i: int| 0 <= i < path.len() - 1
            ==> t.is_container(#[trigger] path[i])
                && t.children_of(path[i]).contains(TileId(path[i + 1])),
    ensures
        path[0] < path[path.len() - 1],
    decreases path.len(),
{
    let k = choose|k: int| 0 <= k < t.children_of(path[0]).len()
        && t.children_of(path[0])[k] == TileId(path[1]);
    lemma_children_resolve(t, path[0], k);
    assert(path[0] < path[1]);
    if path.len() > 2 {
        let rest = path.skip(1);
        assert forall|i: int| 0 <= i < rest.len() - 1
            implies t.is_container(#[trigger] rest[i])
                && t.children_of(rest[i]).contains(TileId(rest[i + 1])) by {
            assert(rest[i] == path[i + 1]);
            assert(rest[i + 1] == path[i + 2]);
        }
        lemma_path_increases(t, rest);
        assert(rest[0] == path[1]);
        assert(rest[rest.len() - 1] == path[path.len() - 1]);
    }
}

/// Tree shape: the parent/child edges form no cycle — no chain of edges
/// leads from a tile back to itself.
pub proof fn lemma_no_cycles(t: Tiles, path: Seq<u64>)
    requires
        t.wf(),
        path.len() >= 2,
        forall|i: int| 0 <= i < path.len() - 1
            ==> t.is_container(#[trigger] path[i])
                && t.children_of(path[i]).contains(TileId(path[i + 1])),
    ensures
        path[0] != path[path.len() - 1],
{
    lemma_path_increases(t, path);
}

/// No event can end in a recovery error: every removal-then-insert
/// sequence in the handlers carries its paired recovery branch, so each
/// request completes with success or with a structural or permission
/// failure, and no panel is ever left without a home.
pub proof fn lemma_no_recovery_errors(
    pre: DockState,
    post: DockState,
    event: crate::events::UIEvent,
    r: Result<(), LayoutError>,
)
    requires
        crate::session::step_post(pre, post, event, r),
    ensures
        r != Err::<(), LayoutError>(LayoutError::RecoveryError),
{
}

/// A well-formed session always passes the diagnostic validation pass: the
/// tree and registry are exclusive, every referenced handle resolves, and
/// the edges cannot close a cycle.
pub proof fn lemma_wf_passes_validation(s: DockState)
    requires
        s.wf(),
    ensures
        s.exclusive(),
        crate::session::refs_resolve(s.tree.tiles),
        crate::session::edges_ordered(s.tree.tiles),
{
}

/// Round trip: undocking a pane and immediately docking its panel again
/// succeeds and restores the panel — identity and data untouched — as the
/// active tab of some tabs container.
pub proof fn lemma_undock_dock_round_trip(
    s0: DockState,
    s1: DockState,
    s2: DockState,
    tile_id: TileId,
    r2: Result<(), LayoutError>,
)
    requires
        s0.wf(),
        s1.wf(),
        s2.wf(),
        undock_post(s0, s1, tile_id, Ok::<(), LayoutError>(())),
        dock_post(s1, s2, s0.tree.tiles.panel_of(tile_id.0).id, r2),
    ensures
        r2 == Ok::<(), LayoutError>(()),
        s2.is_in_tree(s0.tree.tiles.panel_of(tile_id.0).id),
        !s2.is_in_registry(s0.tree.tiles.panel_of(tile_id.0).id),
        exists|h: u64, tgt: u64| #![auto]
            s2.tree.tiles.is_pane(h)
            && s2.tree.tiles.panel_of(h) == s0.tree.tiles.panel_of(tile_id.0)
            && s2.tree.tiles.is_tabs(tgt)
            && s2.tree.tiles.children_of(tgt).contains(TileId(h))
            && s2.tree.tiles.active_of(tgt) == Some(TileId(h)),
{
    let q = s0.tree.tiles.panel_of(tile_id.0);
    assert(s1.floating_panels.contains_key(q.id));
    assert(s1.floating_panels.state_of(q.id).panel == q);
    let h = s1.tree.tiles.next_pane_id;
    match crate::session::dock_target_of(s1, q.id) {
        Some(t) => {
            assert(s2.tree.tiles.is_pane(h) && s2.tree.tiles.panel_of(h) == q);
            assert(s2.tree.tiles.is_tabs(t));
            let cs = s2.tree.tiles.children_of(t);
            assert(cs[cs.len() - 1] == TileId(h));
            assert(cs.contains(TileId(h)));
            assert(s2.tree.tiles.active_of(t) == Some(TileId(h)));
        },
        None => {
            let rt = (s1.tree.tiles.next_container_id - 1) as u64;
            assert(s2.tree.tiles.is_pane(h) && s2.tree.tiles.panel_of(h) == q);
            assert(s2.tree.tiles.is_tabs(rt));
            assert(s2.tree.tiles.children_of(rt) == seq![TileId(h)]);
            assert(s2.tree.tiles.children_of(rt)[0] == TileId(h));
            assert(s2.tree.tiles.children_of(rt).contains(TileId(h)));
            assert(s2.tree.tiles.active_of(rt) == Some(TileId(h)));
        },
    }
    s2.tree.tiles.lemma_pane_has_panel(h);
}

/// Idempotence: closing an already-hidden floating panel is a no-op that
/// reports success.
pub proof fn lemma_close_closed_is_noop(
    pre: DockState,
    post: DockState,
    pid: u32,
    r: Result<(), LayoutError>,
)
    requires
        close_floating_post(pre, post, pid, r),
        pre.floating_panels.contains_key(pid),
        !pre.floating_panels.state_of(pid).panel.is_permanent,
        !pre.floating_panels.state_of(pid).is_open,
    ensures
        r == Ok::<(), LayoutError>(()),
        post == pre,
{
}

/// Idempotence: reopening an already-open panel is a no-op that reports
/// success.
pub proof fn lemma_reopen_open_is_noop(
    pre: DockState,
    post: DockState,
    pid: u32,
    r: Result<(), LayoutError>,
)
    requires
        reopen_post(pre, post, pid, r),
        pre.floating_panels.contains_key(pid),
        pre.floating_panels.state_of(pid).is_open,
    ensures
        r == Ok::<(), LayoutError>(()),
        post == pre,
{
}

/// Pinned protection: undocking or closing a pinned docked panel always
/// fails with a permission error and leaves the session untouched.
pub proof fn lemma_pinned_docked_protected(
    pre: DockState,
    post: DockState,
    tile_id: TileId,
    open: bool,
    r: Result<(), LayoutError>,
)
    requires
        detach_cases_post(pre, post, tile_id, open, r),
        pre.tree.tiles.is_pane(tile_id.0),
        pre.tree.tiles.panel_of(tile_id.0).is_permanent,
    ensures
        r == Err::<(), LayoutError>(LayoutError::PermissionError),
        post == pre,
{
}

/// Pinned protection: closing a pinned floating panel always fails with a
/// permission error and leaves the session untouched.
pub proof fn lemma_pinned_floating_protected(
    pre: DockState,
    post: DockState,
    pid: u32,
    r: Result<(), LayoutError>,
)
    requires
        close_floating_post(pre, post, pid, r),
        pre.floating_panels.contains_key(pid),
        pre.floating_panels.state_of(pid).panel.is_permanent,
    ensures
        r == Err::<(), LayoutError>(LayoutError::PermissionError),
        post == pre,
{
}

/// Recovery: when the resolved dock target has vanished or is not a tabs
/// container by mutation time, the dock request fails, the arena holds
/// exactly the tiles it held before, and the panel ends up as a visible
/// floating record with its pre-failure geometry — it is never lost.
pub proof fn lemma_dock_failure_recovery(
    pre: DockState,
    post: DockState,
    pid: u32,
    target: TileId,
    r: Result<(), LayoutError>,
)
    requires
        dock_at_post(pre, post, pid, target, r),
        pre.floating_panels.contains_key(pid),
        !pre.tree.tiles.is_tabs(target.0),
    ensures
        r == Err::<(), LayoutError>(LayoutError::StructuralError),
        post.tree.tiles.entries@ == pre.tree.tiles.entries@,
        post.tree.root == pre.tree.root,
        post.floating_panels.contains_key(pid),
        post.floating_panels.state_of(pid).is_open,
        post.floating_panels.state_of(pid).panel == pre.floating_panels.state_of(pid).panel,
        pre.floating_panels.state_of(pid).rect is Some
            ==> post.floating_panels.state_of(pid).rect
                == pre.floating_panels.state_of(pid).rect,
{
}

} // verus!
