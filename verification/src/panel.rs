use vstd::prelude::*;

verus! {

/// Stable identity for one of the application's built-in panels.  A panel
/// keeps this identity across any number of dock/undock cycles, even though
/// it occupies a new tile handle each time it re-enters the tree.
#[derive(Debug, Clone, Copy, PartialEq, Eq, Hash, Structural)]
pub enum PanelId {
    Scene,
    Settings,
    Presets,
    Stats,
    Dataset,
}

impl PanelId {
    /// The numeric key under which the docking core tracks this panel.
    pub open spec fn spec_key(self) -> u32 {
        match self {
            PanelId::Scene => 1,
            PanelId::Settings => 2,
            PanelId::Presets => 3,
            PanelId::Stats => 4,
            PanelId::Dataset => 5,
        }
    }

    /// Numeric key of this panel; distinct for distinct panels.
    pub fn key(self) -> (k: u32)
        ensures
            k == self.spec_key(),
    {
        match self {
            PanelId::Scene => 1,
            PanelId::Settings => 2,
            PanelId::Presets => 3,
            PanelId::Stats => 4,
            PanelId::Dataset => 5,
        }
    }

    /// Display title of this panel.
    pub fn title(self) -> (t: &'static str)
        ensures
            t@ == self.spec_title(),
    {
        match self {
            PanelId::Scene => "Scene",
            PanelId::Settings => "Settings",
            PanelId::Presets => "Presets",
            PanelId::Stats => "Stats",
            PanelId::Dataset => "Dataset",
        }
    }

    pub open spec fn spec_title(self) -> Seq<char> {
        match self {
            PanelId::Scene => "Scene"@,
            PanelId::Settings => "Settings"@,
            PanelId::Presets => "Presets"@,
            PanelId::Stats => "Stats"@,
            PanelId::Dataset => "Dataset"@,
        }
    }
}

/// Content and state of one logical panel, as the docking core sees it.
/// `id` is the panel's stable identity; `is_permanent` marks a pinned panel
/// that may never be closed or undocked.
#[derive(Debug, Clone)]
pub struct MockPanel {
    pub id: u32,
    pub title: String,
    pub is_permanent: bool,
}

impl MockPanel {
    /// A fresh panel record.  The caller chooses the identity key.
    pub fn new(id: u32, title: &str, is_permanent: bool) -> (p: Self)
        ensures
            p.id == id,
            p.title@ == title@,
            p.is_permanent == is_permanent,
    {
        MockPanel { id, title: title.to_owned(), is_permanent }
    }
}

/// Screen geometry of a floating window, in whole pixels.
#[derive(Debug, Clone, Copy, PartialEq, Eq, Structural)]
pub struct Rect {
    pub x: i32,
    pub y: i32,
    pub w: i32,
    pub h: i32,
}

impl Rect {
    /// A rectangle from its top-left corner and its size.
    pub fn from_min_size(x: i32, y: i32, w: i32, h: i32) -> (r: Rect)
        ensures
            r == (Rect { x, y, w, h }),
    {
        Rect { x, y, w, h }
    }
}

/// A screen position, in whole pixels.
#[derive(Debug, Clone, Copy, PartialEq, Eq, Structural)]
pub struct Pos {
    pub x: i32,
    pub y: i32,
}

} // verus!
