use vstd::prelude::*;
use crate::panel::Pos;
use crate::tiles::TileId;

verus! {

/// A structural-change request produced during the render pass and executed
/// by the event processor after it, one tick at a time.
#[derive(Debug, Clone, Copy, PartialEq, Eq, Structural)]
pub enum UIEvent {
    /// Close the docked pane under this handle (it becomes a hidden
    /// floating record).
    ClosePanelFromTree { tile_id: TileId },
    /// Hide the visible floating window of this panel.
    ClosePanelFloating { panel_id: u32 },
    /// Show a hidden floating panel again, redocking it if its last parent
    /// is still a valid tabs container.
    ReopenPanel { panel_id: u32 },
    /// Re-embed a floating panel into the tree.
    DockPanel { panel_id: u32 },
    /// Like `DockPanel`, with an advisory target hint and drop position.
    DockPanelToTarget { panel_id: u32, target_id: Option<TileId>, position: Option<Pos> },
    /// Detach the docked pane under this handle into a visible floating
    /// window.
    UndockPanel { tile_id: TileId },
    /// Make this pane the active tab of its parent tabs container.
    RequestActivateTab { tile_id: TileId },
}

/// The deferred event queue: an ordered buffer of requests, filled while the
/// tree and the floating windows are drawn, and drained in order once per
/// tick.  Render callbacks only ever push; nothing mutates the tree while it
/// is being traversed.
#[derive(Debug, Clone)]
pub struct EventQueue {
    pub events: Vec<UIEvent>,
}

impl EventQueue {
    /// An empty queue.
    pub fn new() -> (q: EventQueue)
        ensures
            q.events@ == Seq::<UIEvent>::empty(),
    {
        EventQueue { events: Vec::new() }
    }

    /// Append a request; it runs after all earlier ones.
    pub fn push(&mut self, event: UIEvent)
        ensures
            final(self).events@ == old(self).events@.push(event),
    {
        self.events.push(event);
    }

    pub fn len(&self) -> (n: usize)
        ensures
            n == self.events@.len(),
    {
        self.events.len()
    }

    pub fn is_empty(&self) -> (r: bool)
        ensures
            r == (self.events@.len() == 0),
    {
        self.events.is_empty()
    }
}

} // verus!
