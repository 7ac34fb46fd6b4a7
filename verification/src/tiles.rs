use vstd::prelude::*;
use crate::panel::MockPanel;

verus! {

/// Opaque handle of a tile in the arena.  Handles are never reused, so two
/// live tiles never share one.
#[derive(Debug, Clone, Copy, PartialEq, Eq, Hash, Structural)]
pub struct TileId(pub u64);

/// Boundary between container handles and pane handles.  Container handles
/// are allocated downward from this origin, pane handles upward from it, so
/// a container created for already-existing children sits below them, and a
/// pane created for an already-existing container sits above it.  Every
/// parent/child edge therefore goes from a smaller handle to a larger one,
/// which is the arena's acyclicity argument.
pub const HANDLE_ORIGIN: u64 = 0x4000_0000_0000_0000;

/// Direction of a linear split.
#[derive(Debug, Clone, Copy, PartialEq, Eq, Structural)]
pub enum LinearDir {
    Horizontal,
    Vertical,
}

/// The variant of a container, without its contents.
#[derive(Debug, Clone, Copy, PartialEq, Eq, Structural)]
pub enum ContainerKind {
    Tabs,
    Horizontal,
    Vertical,
}

/// Tab container: ordered children of which one at a time is shown.
/// The active selection, when set, must be one of the children.
#[derive(Debug, Clone)]
pub struct Tabs {
    pub children: Vec<TileId>,
    pub active: Option<TileId>,
}

/// Linear split: ordered children shown side by side, sized by the relative
/// integer weights in `shares` (one weight per child, each at least 1).
#[derive(Debug, Clone)]
pub struct Linear {
    pub dir: LinearDir,
    pub children: Vec<TileId>,
    pub shares: Vec<u64>,
}

/// An internal node of the docking tree.
#[derive(Debug, Clone)]
pub enum Container {
    Tabs(Tabs),
    Linear(Linear),
}

/// A node of the docking tree: a leaf holding one panel's content, or a
/// container holding an ordered list of child handles.
#[derive(Debug, Clone)]
pub enum Tile {
    Pane(MockPanel),
    Container(Container),
}

impl Container {
    pub open spec fn spec_children(&self) -> Seq<TileId> {
        match self {
            Container::Tabs(t) => t.children@,
            Container::Linear(l) => l.children@,
        }
    }

    pub open spec fn spec_active(&self) -> Option<TileId> {
        match self {
            Container::Tabs(t) => t.active,
            Container::Linear(_) => None,
        }
    }

    pub open spec fn spec_kind(&self) -> ContainerKind {
        match self {
            Container::Tabs(_) => ContainerKind::Tabs,
            Container::Linear(l) => match l.dir {
                LinearDir::Horizontal => ContainerKind::Horizontal,
                LinearDir::Vertical => ContainerKind::Vertical,
            },
        }
    }

    /// Local well-formedness of one container: an active selection is a
    /// member of the children, and a linear split has one positive weight
    /// per child.
    pub open spec fn wf(&self) -> bool {
        match self {
            Container::Tabs(t) => match t.active {
                Some(a) => t.children@.contains(a),
                None => true,
            },
            Container::Linear(l) => {
                &&& l.shares@.len() == l.children@.len()
                &&& forall|k: int| 0 <= k < l.shares@.len() ==> #[trigger] l.shares@[k] >= 1
            },
        }
    }

    /// The ordered child handles of this container.
    pub fn children(&self) -> (r: &Vec<TileId>)
        ensures
            r@ == self.spec_children(),
    {
        match self {
            Container::Tabs(t) => &t.children,
            Container::Linear(l) => &l.children,
        }
    }

    /// Which variant of container this is.
    pub fn kind(&self) -> (r: ContainerKind)
        ensures
            r == self.spec_kind(),
    {
        match self {
            Container::Tabs(_) => ContainerKind::Tabs,
            Container::Linear(l) => match l.dir {
                LinearDir::Horizontal => ContainerKind::Horizontal,
                LinearDir::Vertical => ContainerKind::Vertical,
            },
        }
    }
}

impl Tile {
    pub open spec fn is_pane(&self) -> bool {
        self is Pane
    }

    pub open spec fn spec_panel(&self) -> MockPanel {
        self->Pane_0
    }

    pub open spec fn is_tabs(&self) -> bool {
        self matches Tile::Container(Container::Tabs(_))
    }

    pub open spec fn spec_children(&self) -> Seq<TileId> {
        match self {
            Tile::Pane(_) => Seq::empty(),
            Tile::Container(c) => c.spec_children(),
        }
    }
}

/// The position of `x` in `s`; meaningful only when `s` contains `x`.
pub open spec fn seq_index_of(s: Seq<TileId>, x: TileId) -> int {
    choose|k: int| 0 <= k < s.len() && s[k] == x
}

/// The position of `x` in `v`, if any.
pub(crate) fn position_of(v: &Vec<TileId>, x: TileId) -> (r: Option<usize>)
    ensures
        match r {
            Some(k) => 0 <= k < v@.len() && v@[k as int] == x,
            None => !v@.contains(x),
        },
{
    let n = v.len();
    let mut i: usize = 0;
    while i < n
        invariant
            n == v@.len(),
            0 <= i <= n,
            forall|j: int| 0 <= j < i ==> v@[j] != x,
        decreases n - i,
    {
        if v[i].0 == x.0 {
            return Some(i);
        }
        i = i + 1;
    }
    proof {
        assert forall|j: int| 0 <= j < v@.len() implies v@[j] != x by {}
    }
    None
}

/// One slot of the arena: a tile under its handle.
#[derive(Debug, Clone)]
pub struct TileEntry {
    pub id: TileId,
    pub tile: Tile,
}

/// The tile arena: an owning flat store of tiles keyed by opaque handles.
/// Containers refer to their children by handle only; nothing holds a
/// language reference into the arena.
#[derive(Debug, Clone)]
pub struct Tiles {
    pub entries: Vec<TileEntry>,
    /// Next handle for a container; counts down, stays at or below
    /// `HANDLE_ORIGIN`.
    pub next_container_id: u64,
    /// Next handle for a pane; counts up, stays at or above `HANDLE_ORIGIN`.
    pub next_pane_id: u64,
}

impl Tiles {
    pub open spec fn num(self) -> int {
        self.entries@.len() as int
    }

    pub open spec fn id_at(self, i: int) -> u64 {
        self.entries@[i].id.0
    }

    pub open spec fn tile_at(self, i: int) -> Tile {
        self.entries@[i].tile
    }

    pub open spec fn children_at(self, i: int) -> Seq<TileId> {
        self.tile_at(i).spec_children()
    }

    /// True when `(i, k)` names the `k`-th child slot of the container at
    /// arena index `i`.
    pub open spec fn child_slot(self, i: int, k: int) -> bool {
        0 <= i < self.num() && 0 <= k < self.children_at(i).len()
    }

    pub open spec fn child_at(self, i: int, k: int) -> u64 {
        self.children_at(i)[k].0
    }

    pub open spec fn contains(self, id: u64) -> bool {
        exists|i: int| 0 <= i < self.num() && self.id_at(i) == id
    }

    /// Arena index of the entry holding `id`; meaningful only when
    /// `contains(id)` holds and ids are distinct.
    pub open spec fn idx_of(self, id: u64) -> int {
        choose|i: int| 0 <= i < self.num() && self.id_at(i) == id
    }

    pub open spec fn tile_of(self, id: u64) -> Tile {
        self.tile_at(self.idx_of(id))
    }

    pub open spec fn is_pane(self, id: u64) -> bool {
        self.contains(id) && self.tile_of(id).is_pane()
    }

    pub open spec fn panel_of(self, id: u64) -> MockPanel {
        self.tile_of(id).spec_panel()
    }

    pub open spec fn is_tabs(self, id: u64) -> bool {
        self.contains(id) && self.tile_of(id).is_tabs()
    }

    pub open spec fn is_container(self, id: u64) -> bool {
        self.contains(id) && self.tile_of(id) is Container
    }

    pub open spec fn children_of(self, id: u64) -> Seq<TileId> {
        self.tile_of(id).spec_children()
    }

    /// True when some container of the arena lists `c` among its children.
    pub open spec fn is_child(self, c: u64) -> bool {
        exists|i: int, k: int| #![trigger self.child_at(i, k)]
            self.child_slot(i, k) && self.child_at(i, k) == c
    }

    /// The panel identity `pid` is embedded in the tree, i.e. some pane of
    /// the arena holds a panel with that identity.
    pub open spec fn has_panel(self, pid: u32) -> bool {
        exists|i: int| 0 <= i < self.num()
            && (#[trigger] self.tile_at(i)).is_pane()
            && self.tile_at(i).spec_panel().id == pid
    }

    /// The handle of the container that lists `c` among its children;
    /// meaningful only when `is_child(c)` holds.
    pub open spec fn parent_of(self, c: u64) -> u64 {
        choose|p: u64| self.is_container(p) && self.children_of(p).contains(TileId(c))
    }

    /// Whether `c` sits inside a tabs container.
    pub open spec fn parent_is_tabs(self, c: u64) -> bool {
        self.is_child(c) && self.is_tabs(self.parent_of(c))
    }

    /// In a well-formed arena every child has exactly one parent, and
    /// `parent_of` names it.
    pub proof fn lemma_parent_of(self, c: u64)
        requires
            self.wf(),
            self.is_child(c),
        ensures
            self.is_container(self.parent_of(c)),
            self.children_of(self.parent_of(c)).contains(TileId(c)),
            self.parent_of(c) < c,
            forall|p: u64| self.is_container(p) && self.children_of(p).contains(TileId(c))
                ==> p == self.parent_of(c),
    {
        let (i, k): (int, int) = choose|i: int, k: int|
            #![trigger self.child_at(i, k)]
            self.child_slot(i, k) && self.child_at(i, k) == c;
        let p0 = self.id_at(i);
        self.lemma_idx_of(i);
        assert(self.children_of(p0) == self.children_at(i));
        assert(self.children_at(i)[k] == TileId(c));
        assert(self.is_container(p0) && self.children_of(p0).contains(TileId(c)));
        assert forall|p: u64| self.is_container(p) && self.children_of(p).contains(TileId(c))
            implies p == p0 by {
            let j = self.idx_of(p);
            self.lemma_idx_of(j);
            let l = choose|l: int| 0 <= l < self.children_of(p).len()
                && self.children_of(p)[l] == TileId(c);
            assert(self.child_slot(j, l) && self.child_at(j, l) == c);
            assert(self.child_at(i, k) == self.child_at(j, l));
            assert(i == j);
        }
        assert(self.parent_of(c) == p0);
        assert(self.id_at(i) < self.child_at(i, k));
    }

    /// Containers live below `HANDLE_ORIGIN`, panes at or above it.
    pub proof fn lemma_id_range(self, id: u64)
        requires
            self.wf(),
            self.contains(id),
        ensures
            self.is_container(id) ==> id < HANDLE_ORIGIN,
            self.is_pane(id) ==> id >= HANDLE_ORIGIN,
    {
        let i = self.idx_of(id);
        assert(self.entry_wf(i));
    }

    /// A panel identity embedded in the tree is held by some pane's handle.
    pub proof fn lemma_has_panel_witness(self, x: u32)
        requires
            self.ids_distinct(),
            self.has_panel(x),
        ensures
            exists|a: u64| #![auto] self.is_pane(a) && self.panel_of(a).id == x,
    {
        let i = choose|i: int| 0 <= i < self.num()
            && (#[trigger] self.tile_at(i)).is_pane()
            && self.tile_at(i).spec_panel().id == x;
        self.lemma_idx_of(i);
        let a = self.id_at(i);
        assert(self.is_pane(a) && self.panel_of(a).id == x);
    }

    /// The panel in a pane is embedded in the tree.
    pub proof fn lemma_pane_has_panel(self, a: u64)
        requires
            self.ids_distinct(),
            self.is_pane(a),
        ensures
            self.has_panel(self.panel_of(a).id),
    {
        let i = self.idx_of(a);
        assert(self.tile_at(i).is_pane()
            && self.tile_at(i).spec_panel().id == self.panel_of(a).id);
    }

    /// Local well-formedness of the entry at arena index `i`: its handle is
    /// inside the allocated range, on the side of `HANDLE_ORIGIN` that its
    /// variant requires, and a container is locally well-formed.
    pub open spec fn entry_wf(self, i: int) -> bool {
        &&& self.next_container_id <= self.id_at(i) < self.next_pane_id
        &&& match self.tile_at(i) {
            Tile::Pane(_) => self.id_at(i) >= HANDLE_ORIGIN,
            Tile::Container(c) => self.id_at(i) < HANDLE_ORIGIN && c.wf(),
        }
    }

    pub open spec fn counters_wf(self) -> bool {
        self.next_container_id <= HANDLE_ORIGIN <= self.next_pane_id
    }

    pub open spec fn ids_distinct(self) -> bool {
        forall|i: int, j: int| #![trigger self.id_at(i), self.id_at(j)]
            0 <= i < j < self.num() ==> self.id_at(i) != self.id_at(j)
    }

    /// Every referenced child handle resolves to an arena entry, and every
    /// edge goes from a smaller handle to a strictly larger one.
    pub open spec fn children_ok(self) -> bool {
        forall|i: int, k: int| self.child_slot(i, k)
            ==> self.contains(#[trigger] self.child_at(i, k))
                && self.id_at(i) < self.child_at(i, k)
    }

    /// No handle occurs in two child slots: each tile has at most one parent
    /// and occurs at most once in that parent's children.
    pub open spec fn no_shared_children(self) -> bool {
        forall|i: int, k: int, j: int, l: int|
            #![trigger self.child_at(i, k), self.child_at(j, l)]
            self.child_slot(i, k) && self.child_slot(j, l)
                && self.child_at(i, k) == self.child_at(j, l)
            ==> i == j && k == l
    }

    /// Structural well-formedness of the whole arena.
    pub open spec fn wf(self) -> bool {
        &&& self.counters_wf()
        &&& forall|i: int| 0 <= i < self.num() ==> #[trigger] self.entry_wf(i)
        &&& self.ids_distinct()
        &&& self.children_ok()
        &&& self.no_shared_children()
    }

    /// Room for allocating at least `n` more handles on either side.
    pub open spec fn can_allocate(self, n: u64) -> bool {
        &&& self.next_container_id >= n
        &&& self.next_pane_id + n <= u64::MAX
    }

    /// With distinct ids, the arena index holding a given id is unique, so
    /// `idx_of` returns exactly it.
    pub proof fn lemma_idx_of(self, i: int)
        requires
            self.ids_distinct(),
            0 <= i < self.num(),
        ensures
            self.contains(self.id_at(i)),
            self.idx_of(self.id_at(i)) == i,
    {
        assert(self.contains(self.id_at(i)));
        let j = self.idx_of(self.id_at(i));
        if i < j {
            assert(self.id_at(i) != self.id_at(j));
        } else if j < i {
            assert(self.id_at(j) != self.id_at(i));
        }
    }

    /// An empty arena with no tiles and all handles still available.
    pub fn new() -> (r: Tiles)
        ensures
            r.wf(),
            r.num() == 0,
            r.next_container_id == HANDLE_ORIGIN,
            r.next_pane_id == HANDLE_ORIGIN,
            forall|id: u64| !r.contains(id),
    {
        Tiles {
            entries: Vec::new(),
            next_container_id: HANDLE_ORIGIN,
            next_pane_id: HANDLE_ORIGIN,
        }
    }

    /// The arena index currently holding `id`, if any.
    fn find_index(&self, id: TileId) -> (r: Option<usize>)
        ensures
            match r {
                Some(i) => 0 <= i < self.num() && self.id_at(i as int) == id.0,
                None => !self.contains(id.0),
            },
    {
        let n = self.entries.len();
        let mut i: usize = 0;
        while i < n
            invariant
                n == self.num(),
                0 <= i <= n,
                forall|j: int| 0 <= j < i ==> self.id_at(j) != id.0,
            decreases n - i,
        {
            if self.entries[i].id.0 == id.0 {
                return Some(i);
            }
            i = i + 1;
        }
        None
    }

    /// Look a tile up by handle.
    pub fn get(&self, id: TileId) -> (r: Option<&Tile>)
        requires
            self.wf(),
        ensures
            match r {
                Some(t) => self.contains(id.0) && *t == self.tile_of(id.0),
                None => !self.contains(id.0),
            },
            r is Some <==> self.contains(id.0),
    {
        match self.find_index(id) {
            Some(i) => {
                proof {
                    self.lemma_idx_of(i as int);
                }
                Some(&self.entries[i].tile)
            },
            None => None,
        }
    }

    /// Renaming nothing and moving nothing, two arenas with the same handles
    /// at the same indices agree on `contains` and `idx_of`.
    pub proof fn lemma_same_ids(self, other: Tiles)
        requires
            self.ids_distinct(),
            other.num() == self.num(),
            forall|j: int| 0 <= j < self.num() ==> other.id_at(j) == self.id_at(j),
        ensures
            other.ids_distinct(),
            forall|id: u64| self.contains(id) <==> other.contains(id),
            forall|id: u64| #![auto] self.contains(id) ==>
                0 <= self.idx_of(id) < self.num()
                && self.id_at(self.idx_of(id)) == id
                && other.idx_of(id) == self.idx_of(id),
    {
        assert forall|id: u64| self.contains(id) implies other.contains(id) by {
            let i = self.idx_of(id);
            assert(other.id_at(i) == id);
        }
        assert forall|id: u64| other.contains(id) implies self.contains(id) by {
            let i = other.idx_of(id);
            assert(self.id_at(i) == id);
        }
        assert forall|id: u64| #![auto] self.contains(id) implies
            0 <= self.idx_of(id) < self.num()
            && self.id_at(self.idx_of(id)) == id
            && other.idx_of(id) == self.idx_of(id) by {
            let i = self.idx_of(id);
            let j = other.idx_of(id);
            assert(other.id_at(j) == id);
            assert(self.id_at(j) == id);
            if i != j {
                assert(self.id_at(i) != self.id_at(j));
            }
        }
    }

    /// Insert a fresh pane tile holding `panel`; the returned handle is
    /// fresh, and no other tile changes.
    pub fn insert_pane(&mut self, panel: MockPanel) -> (r: TileId)
        requires
            old(self).wf(),
            old(self).can_allocate(1),
        ensures
            final(self).wf(),
            r.0 == old(self).next_pane_id,
            r.0 >= HANDLE_ORIGIN,
            !old(self).contains(r.0),
            final(self).next_pane_id == old(self).next_pane_id + 1,
            final(self).next_container_id == old(self).next_container_id,
            final(self).entries@ == old(self).entries@.push(
                TileEntry { id: r, tile: Tile::Pane(panel) },
            ),
            final(self).contains(r.0),
            final(self).is_pane(r.0),
            final(self).panel_of(r.0) == panel,
            forall|id: u64| final(self).contains(id) <==> (old(self).contains(id) || id == r.0),
            forall|id: u64| old(self).contains(id)
                ==> final(self).tile_of(id) == old(self).tile_of(id),
            forall|c: u64| final(self).is_child(c) <==> old(self).is_child(c),
            forall|p: u32| final(self).has_panel(p) <==> (old(self).has_panel(p) || p == panel.id),
    {
        let id = TileId(self.next_pane_id);
        self.entries.push(TileEntry { id, tile: Tile::Pane(panel) });
        self.next_pane_id = self.next_pane_id + 1;
        proof {
            let pre = *old(self);
            let n = pre.num();
            assert forall|i: int| 0 <= i < self.num() implies #[trigger] self.entry_wf(i) by {
                if i < n {
                    assert(pre.entry_wf(i));
                    assert(self.entries@[i] == pre.entries@[i]);
                }
            }
            assert(self.ids_distinct()) by {
                assert forall|i: int, j: int|
                    #![trigger self.id_at(i), self.id_at(j)]
                    0 <= i < j < self.num() implies self.id_at(i) != self.id_at(j) by {
                    if j < n {
                        assert(pre.id_at(i) != pre.id_at(j));
                        assert(self.entries@[i] == pre.entries@[i]);
                        assert(self.entries@[j] == pre.entries@[j]);
                    } else {
                        assert(pre.entry_wf(i));
                        assert(self.entries@[i] == pre.entries@[i]);
                    }
                }
            }
            assert forall|i: int, k: int| self.child_slot(i, k) implies
                self.contains(#[trigger] self.child_at(i, k))
                && self.id_at(i) < self.child_at(i, k) by {
                assert(i < n);
                assert(self.entries@[i] == pre.entries@[i]);
                assert(pre.child_slot(i, k));
                assert(pre.contains(pre.child_at(i, k)));
                let w = pre.idx_of(pre.child_at(i, k));
                assert(self.id_at(w) == pre.id_at(w));
            }
            assert forall|i: int, k: int, j: int, l: int|
                #![trigger self.child_at(i, k), self.child_at(j, l)]
                self.child_slot(i, k) && self.child_slot(j, l)
                    && self.child_at(i, k) == self.child_at(j, l)
                implies i == j && k == l by {
                assert(i < n && j < n);
                assert(self.entries@[i] == pre.entries@[i]);
                assert(self.entries@[j] == pre.entries@[j]);
                assert(pre.child_slot(i, k) && pre.child_slot(j, l));
                assert(pre.child_at(i, k) == self.child_at(i, k));
                assert(pre.child_at(j, l) == self.child_at(j, l));
            }
            assert(!pre.contains(id.0)) by {
                if pre.contains(id.0) {
                    let i = pre.idx_of(id.0);
                    assert(pre.entry_wf(i));
                }
            }
            assert(self.wf());
            assert forall|x: u64| old(self).contains(x) implies
                self.contains(x) && self.tile_of(x) == old(self).tile_of(x) by {
                let i = pre.idx_of(x);
                assert(self.entries@[i] == pre.entries@[i]);
                self.lemma_idx_of(i);
                pre.lemma_idx_of(i);
            }
            self.lemma_idx_of(n);
            assert forall|x: u64| self.contains(x) implies
                (old(self).contains(x) || x == id.0) by {
                let i = self.idx_of(x);
                if i < n {
                    assert(pre.id_at(i) == x);
                }
            }
            assert forall|c: u64| self.is_child(c) implies pre.is_child(c) by {
                let (i, k): (int, int) = choose|i: int, k: int|
                    #![trigger self.child_at(i, k)]
                    self.child_slot(i, k) && self.child_at(i, k) == c;
                assert(i < n);
                assert(self.entries@[i] == pre.entries@[i]);
                assert(pre.child_slot(i, k) && pre.child_at(i, k) == c);
            }
            assert forall|c: u64| pre.is_child(c) implies self.is_child(c) by {
                let (i, k): (int, int) = choose|i: int, k: int|
                    #![trigger pre.child_at(i, k)]
                    pre.child_slot(i, k) && pre.child_at(i, k) == c;
                assert(self.entries@[i] == pre.entries@[i]);
                assert(self.child_slot(i, k) && self.child_at(i, k) == c);
            }
            assert forall|p: u32| pre.has_panel(p) implies self.has_panel(p) by {
                let i = choose|i: int| 0 <= i < pre.num()
                    && (#[trigger] pre.tile_at(i)).is_pane()
                    && pre.tile_at(i).spec_panel().id == p;
                assert(self.entries@[i] == pre.entries@[i]);
                assert(self.tile_at(i).is_pane() && self.tile_at(i).spec_panel().id == p);
            }
            assert(self.tile_at(n).is_pane() && self.tile_at(n).spec_panel().id == panel.id);
            assert forall|p: u32| self.has_panel(p) implies
                (pre.has_panel(p) || p == panel.id) by {
                let i = choose|i: int| 0 <= i < self.num()
                    && (#[trigger] self.tile_at(i)).is_pane()
                    && self.tile_at(i).spec_panel().id == p;
                if i < n {
                    assert(self.entries@[i] == pre.entries@[i]);
                    assert(pre.tile_at(i).is_pane() && pre.tile_at(i).spec_panel().id == p);
                }
            }
        }
        id
    }

    /// Insert a fresh container tile.  Its children must already live in the
    /// arena, be distinct, and be parentless; the new container becomes their
    /// sole parent.  The returned handle is fresh and smaller than every
    /// existing handle.
    pub fn insert_container(&mut self, container: Container) -> (r: TileId)
        requires
            old(self).wf(),
            old(self).can_allocate(1),
            container.wf(),
            forall|k: int| 0 <= k < container.spec_children().len()
                ==> old(self).contains(#[trigger] container.spec_children()[k].0)
                    && !old(self).is_child(container.spec_children()[k].0),
            forall|k: int, l: int|
                #![trigger container.spec_children()[k], container.spec_children()[l]]
                0 <= k < l < container.spec_children().len()
                ==> container.spec_children()[k] != container.spec_children()[l],
        ensures
            final(self).wf(),
            r.0 == old(self).next_container_id - 1,
            r.0 < HANDLE_ORIGIN,
            !old(self).contains(r.0),
            final(self).next_container_id == old(self).next_container_id - 1,
            final(self).next_pane_id == old(self).next_pane_id,
            final(self).entries@ == old(self).entries@.push(
                TileEntry { id: r, tile: Tile::Container(container) },
            ),
            final(self).contains(r.0),
            final(self).tile_of(r.0) == Tile::Container(container),
            forall|id: u64| final(self).contains(id) <==> (old(self).contains(id) || id == r.0),
            forall|id: u64| old(self).contains(id)
                ==> final(self).tile_of(id) == old(self).tile_of(id),
            forall|c: u64| final(self).is_child(c)
                <==> (old(self).is_child(c) || container.spec_children().contains(TileId(c))),
            forall|p: u32| final(self).has_panel(p) <==> old(self).has_panel(p),
    {
        let id = TileId(self.next_container_id - 1);
        self.entries.push(TileEntry { id, tile: Tile::Container(container) });
        self.next_container_id = self.next_container_id - 1;
        proof {
            let pre = *old(self);
            let n = pre.num();
            let cs = container.spec_children();
            assert forall|i: int| 0 <= i < self.num() implies #[trigger] self.entry_wf(i) by {
                if i < n {
                    assert(pre.entry_wf(i));
                    assert(self.entries@[i] == pre.entries@[i]);
                }
            }
            assert(self.ids_distinct()) by {
                assert forall|i: int, j: int|
                    #![trigger self.id_at(i), self.id_at(j)]
                    0 <= i < j < self.num() implies self.id_at(i) != self.id_at(j) by {
                    if j < n {
                        assert(pre.id_at(i) != pre.id_at(j));
                        assert(self.entries@[i] == pre.entries@[i]);
                        assert(self.entries@[j] == pre.entries@[j]);
                    } else {
                        assert(pre.entry_wf(i));
                        assert(self.entries@[i] == pre.entries@[i]);
                    }
                }
            }
            assert forall|i: int, k: int| self.child_slot(i, k) implies
                self.contains(#[trigger] self.child_at(i, k))
                && self.id_at(i) < self.child_at(i, k) by {
                if i < n {
                    assert(self.entries@[i] == pre.entries@[i]);
                    assert(pre.child_slot(i, k));
                    assert(pre.contains(pre.child_at(i, k)));
                    let w = pre.idx_of(pre.child_at(i, k));
                    assert(self.id_at(w) == pre.id_at(w));
                } else {
                    assert(self.child_at(i, k) == cs[k].0);
                    assert(pre.contains(cs[k].0));
                    let w = pre.idx_of(cs[k].0);
                    assert(self.id_at(w) == pre.id_at(w));
                    assert(pre.entry_wf(w));
                }
            }
            assert forall|i: int, k: int, j: int, l: int|
                #![trigger self.child_at(i, k), self.child_at(j, l)]
                self.child_slot(i, k) && self.child_slot(j, l)
                    && self.child_at(i, k) == self.child_at(j, l)
                implies i == j && k == l by {
                if i < n && j < n {
                    assert(self.entries@[i] == pre.entries@[i]);
                    assert(self.entries@[j] == pre.entries@[j]);
                    assert(pre.child_slot(i, k) && pre.child_slot(j, l));
                    assert(pre.child_at(i, k) == self.child_at(i, k));
                    assert(pre.child_at(j, l) == self.child_at(j, l));
                } else if i < n && j == n {
                    assert(self.entries@[i] == pre.entries@[i]);
                    assert(pre.child_slot(i, k));
                    assert(pre.child_at(i, k) == self.child_at(i, k));
                    assert(self.child_at(j, l) == cs[l].0);
                    assert(pre.is_child(cs[l].0));
                    assert(false);
                } else if i == n && j < n {
                    assert(self.entries@[j] == pre.entries@[j]);
                    assert(pre.child_slot(j, l));
                    assert(pre.child_at(j, l) == self.child_at(j, l));
                    assert(self.child_at(i, k) == cs[k].0);
                    assert(pre.is_child(cs[k].0));
                    assert(false);
                } else {
                    assert(self.child_at(i, k) == cs[k].0);
                    assert(self.child_at(j, l) == cs[l].0);
                    if k < l {
                        assert(cs[k] != cs[l]);
                    } else if l < k {
                        assert(cs[l] != cs[k]);
                    }
                }
            }
            assert(!pre.contains(id.0)) by {
                if pre.contains(id.0) {
                    let i = pre.idx_of(id.0);
                    assert(pre.entry_wf(i));
                }
            }
            assert(self.wf());
            assert forall|x: u64| pre.contains(x) implies
                self.contains(x) && self.tile_of(x) == pre.tile_of(x) by {
                let i = pre.idx_of(x);
                assert(self.entries@[i] == pre.entries@[i]);
                self.lemma_idx_of(i);
                pre.lemma_idx_of(i);
            }
            self.lemma_idx_of(n);
            assert forall|x: u64| self.contains(x) implies
                (pre.contains(x) || x == id.0) by {
                let i = self.idx_of(x);
                if i < n {
                    assert(pre.id_at(i) == x);
                }
            }
            assert forall|c: u64| self.is_child(c) implies
                (pre.is_child(c) || cs.contains(TileId(c))) by {
                let (i, k): (int, int) = choose|i: int, k: int|
                    #![trigger self.child_at(i, k)]
                    self.child_slot(i, k) && self.child_at(i, k) == c;
                if i < n {
                    assert(self.entries@[i] == pre.entries@[i]);
                    assert(pre.child_slot(i, k) && pre.child_at(i, k) == c);
                } else {
                    assert(cs[k].0 == c);
                    assert(cs[k] == TileId(c));
                }
            }
            assert forall|c: u64| (pre.is_child(c) || cs.contains(TileId(c)))
                implies self.is_child(c) by {
                if pre.is_child(c) {
                    let (i, k): (int, int) = choose|i: int, k: int|
                        #![trigger pre.child_at(i, k)]
                        pre.child_slot(i, k) && pre.child_at(i, k) == c;
                    assert(self.entries@[i] == pre.entries@[i]);
                    assert(self.child_slot(i, k) && self.child_at(i, k) == c);
                } else {
                    let k = choose|k: int| 0 <= k < cs.len() && cs[k] == TileId(c);
                    assert(self.child_slot(n, k) && self.child_at(n, k) == c);
                }
            }
            assert forall|p: u32| pre.has_panel(p) implies self.has_panel(p) by {
                let i = choose|i: int| 0 <= i < pre.num()
                    && (#[trigger] pre.tile_at(i)).is_pane()
                    && pre.tile_at(i).spec_panel().id == p;
                assert(self.entries@[i] == pre.entries@[i]);
                assert(self.tile_at(i).is_pane() && self.tile_at(i).spec_panel().id == p);
            }
            assert forall|p: u32| self.has_panel(p) implies pre.has_panel(p) by {
                let i = choose|i: int| 0 <= i < self.num()
                    && (#[trigger] self.tile_at(i)).is_pane()
                    && self.tile_at(i).spec_panel().id == p;
                assert(i < n);
                assert(self.entries@[i] == pre.entries@[i]);
                assert(pre.tile_at(i).is_pane() && pre.tile_at(i).spec_panel().id == p);
            }
        }
        id
    }

    /// Insert a fresh tabs container over the given children; the first
    /// child, if any, becomes the active tab.
    pub fn insert_tab_tile(&mut self, children: Vec<TileId>) -> (r: TileId)
        requires
            old(self).wf(),
            old(self).can_allocate(1),
            forall|k: int| 0 <= k < children@.len()
                ==> old(self).contains(#[trigger] children@[k].0)
                    && !old(self).is_child(children@[k].0),
            forall|k: int, l: int|
                #![trigger children@[k], children@[l]]
                0 <= k < l < children@.len() ==> children@[k] != children@[l],
        ensures
            final(self).wf(),
            r.0 == old(self).next_container_id - 1,
            !old(self).contains(r.0),
            final(self).next_container_id == old(self).next_container_id - 1,
            final(self).next_pane_id == old(self).next_pane_id,
            final(self).is_tabs(r.0),
            final(self).children_of(r.0) == children@,
            final(self).active_of(r.0)
                == (if children@.len() > 0 { Some(children@[0]) } else { None::<TileId> }),
            forall|id: u64| final(self).contains(id) <==> (old(self).contains(id) || id == r.0),
            forall|id: u64| old(self).contains(id)
                ==> final(self).tile_of(id) == old(self).tile_of(id),
            forall|c: u64| final(self).is_child(c)
                <==> (old(self).is_child(c) || children@.contains(TileId(c))),
            forall|p: u32| final(self).has_panel(p) <==> old(self).has_panel(p),
    {
        let active = if children.len() > 0 {
            Some(children[0])
        } else {
            None
        };
        let tabs = Tabs { children, active };
        proof {
            match tabs.active {
                Some(a) => {
                    assert(tabs.children@[0] == a);
                },
                None => {},
            }
        }
        self.insert_container(Container::Tabs(tabs))
    }

    /// Insert a fresh linear split over the given children, each with share
    /// weight 1.
    pub fn insert_linear_tile(&mut self, dir: LinearDir, children: Vec<TileId>) -> (r: TileId)
        requires
            old(self).wf(),
            old(self).can_allocate(1),
            forall|k: int| 0 <= k < children@.len()
                ==> old(self).contains(#[trigger] children@[k].0)
                    && !old(self).is_child(children@[k].0),
            forall|k: int, l: int|
                #![trigger children@[k], children@[l]]
                0 <= k < l < children@.len() ==> children@[k] != children@[l],
        ensures
            final(self).wf(),
            r.0 == old(self).next_container_id - 1,
            !old(self).contains(r.0),
            final(self).next_container_id == old(self).next_container_id - 1,
            final(self).next_pane_id == old(self).next_pane_id,
            final(self).is_container(r.0),
            !final(self).is_tabs(r.0),
            final(self).tile_of(r.0) matches Tile::Container(Container::Linear(l))
                && l.dir == dir,
            final(self).children_of(r.0) == children@,
            forall|k: int| 0 <= k < children@.len()
                ==> #[trigger] final(self).shares_of(r.0)[k] == 1,
            final(self).shares_of(r.0).len() == children@.len(),
            forall|id: u64| final(self).contains(id) <==> (old(self).contains(id) || id == r.0),
            forall|id: u64| old(self).contains(id)
                ==> final(self).tile_of(id) == old(self).tile_of(id),
            forall|c: u64| final(self).is_child(c)
                <==> (old(self).is_child(c) || children@.contains(TileId(c))),
            forall|p: u32| final(self).has_panel(p) <==> old(self).has_panel(p),
    {
        let n = children.len();
        let mut shares: Vec<u64> = Vec::new();
        let mut i: usize = 0;
        while i < n
            invariant
                0 <= i <= n,
                shares@.len() == i,
                forall|k: int| 0 <= k < i ==> #[trigger] shares@[k] == 1,
            decreases n - i,
        {
            shares.push(1);
            i = i + 1;
        }
        let linear = Linear { dir, children, shares };
        self.insert_container(Container::Linear(linear))
    }

    /// Insert a fresh horizontal split over the given children.
    pub fn insert_horizontal_tile(&mut self, children: Vec<TileId>) -> (r: TileId)
        requires
            old(self).wf(),
            old(self).can_allocate(1),
            forall|k: int| 0 <= k < children@.len()
                ==> old(self).contains(#[trigger] children@[k].0)
                    && !old(self).is_child(children@[k].0),
            forall|k: int, l: int|
                #![trigger children@[k], children@[l]]
                0 <= k < l < children@.len() ==> children@[k] != children@[l],
        ensures
            final(self).wf(),
            r.0 == old(self).next_container_id - 1,
            !old(self).contains(r.0),
            final(self).next_container_id == old(self).next_container_id - 1,
            final(self).next_pane_id == old(self).next_pane_id,
            final(self).is_container(r.0),
            !final(self).is_tabs(r.0),
            final(self).children_of(r.0) == children@,
            final(self).shares_of(r.0).len() == children@.len(),
            forall|k: int| 0 <= k < children@.len()
                ==> #[trigger] final(self).shares_of(r.0)[k] == 1,
            forall|id: u64| final(self).contains(id) <==> (old(self).contains(id) || id == r.0),
            forall|id: u64| old(self).contains(id)
                ==> final(self).tile_of(id) == old(self).tile_of(id),
            forall|c: u64| final(self).is_child(c)
                <==> (old(self).is_child(c) || children@.contains(TileId(c))),
            forall|p: u32| final(self).has_panel(p) <==> old(self).has_panel(p),
    {
        self.insert_linear_tile(LinearDir::Horizontal, children)
    }

    /// Insert a fresh vertical split over the given children.
    pub fn insert_vertical_tile(&mut self, children: Vec<TileId>) -> (r: TileId)
        requires
            old(self).wf(),
            old(self).can_allocate(1),
            forall|k: int| 0 <= k < children@.len()
                ==> old(self).contains(#[trigger] children@[k].0)
                    && !old(self).is_child(children@[k].0),
            forall|k: int, l: int|
                #![trigger children@[k], children@[l]]
                0 <= k < l < children@.len() ==> children@[k] != children@[l],
        ensures
            final(self).wf(),
            r.0 == old(self).next_container_id - 1,
            !old(self).contains(r.0),
            final(self).next_container_id == old(self).next_container_id - 1,
            final(self).next_pane_id == old(self).next_pane_id,
            final(self).is_container(r.0),
            !final(self).is_tabs(r.0),
            final(self).children_of(r.0) == children@,
            final(self).shares_of(r.0).len() == children@.len(),
            forall|k: int| 0 <= k < children@.len()
                ==> #[trigger] final(self).shares_of(r.0)[k] == 1,
            forall|id: u64| final(self).contains(id) <==> (old(self).contains(id) || id == r.0),
            forall|id: u64| old(self).contains(id)
                ==> final(self).tile_of(id) == old(self).tile_of(id),
            forall|c: u64| final(self).is_child(c)
                <==> (old(self).is_child(c) || children@.contains(TileId(c))),
            forall|p: u32| final(self).has_panel(p) <==> old(self).has_panel(p),
    {
        self.insert_linear_tile(LinearDir::Vertical, children)
    }

    /// Remove the tile under `id` from the arena and hand it back.  The tile
    /// must already be detached: no container may list it as a child, and it
    /// must not have children of its own.  Every other tile keeps its handle
    /// and contents.
    pub fn remove(&mut self, id: TileId) -> (r: Option<Tile>)
        requires
            old(self).wf(),
            !old(self).is_child(id.0),
            old(self).contains(id.0) ==> old(self).children_of(id.0).len() == 0,
        ensures
            final(self).wf(),
            final(self).next_container_id == old(self).next_container_id,
            final(self).next_pane_id == old(self).next_pane_id,
            match r {
                Some(t) => old(self).contains(id.0) && t == old(self).tile_of(id.0)
                    && final(self).entries@ == old(self).entries@.remove(old(self).idx_of(id.0)),
                None => !old(self).contains(id.0) && final(self).entries@ == old(self).entries@,
            },
            forall|x: u64| final(self).contains(x) <==> (old(self).contains(x) && x != id.0),
            forall|x: u64| old(self).contains(x) && x != id.0
                ==> final(self).tile_of(x) == old(self).tile_of(x),
            forall|c: u64| final(self).is_child(c) <==> old(self).is_child(c),
            forall|p: u32| final(self).has_panel(p)
                <==> exists|i: int| 0 <= i < old(self).num()
                    && old(self).id_at(i) != id.0
                    && (#[trigger] old(self).tile_at(i)).is_pane()
                    && old(self).tile_at(i).spec_panel().id == p,
    {
        let idx = match self.find_index(id) {
            Some(i) => i,
            None => {
                return None;
            },
        };
        proof {
            self.lemma_idx_of(idx as int);
        }
        let entry = self.entries.remove(idx);
        proof {
            let pre = *old(self);
            let k0 = idx as int;
            let n = pre.num();
            pre.entries@.remove_ensures(k0);
            // Each surviving index maps to its old position.
            let f = |j: int| if j < k0 { j } else { j + 1 };
            assert forall|j: int| 0 <= j < self.num()
                implies self.entries@[j] == pre.entries@[f(j)] && f(j) != k0 by {}
            assert forall|i: int| 0 <= i < self.num() implies #[trigger] self.entry_wf(i) by {
                assert(pre.entry_wf(f(i)));
                assert(self.entries@[i] == pre.entries@[f(i)]);
            }
            assert(self.ids_distinct()) by {
                assert forall|i: int, j: int|
                    #![trigger self.id_at(i), self.id_at(j)]
                    0 <= i < j < self.num() implies self.id_at(i) != self.id_at(j) by {
                    assert(self.entries@[i] == pre.entries@[f(i)]);
                    assert(self.entries@[j] == pre.entries@[f(j)]);
                    assert(pre.id_at(f(i)) != pre.id_at(f(j)));
                }
            }
            assert forall|x: u64| self.contains(x) implies (pre.contains(x) && x != id.0) by {
                let i = self.idx_of(x);
                assert(self.entries@[i] == pre.entries@[f(i)]);
                assert(pre.id_at(f(i)) == x);
                if x == id.0 {
                    assert(pre.id_at(k0) == x);
                    assert(pre.id_at(f(i)) != pre.id_at(k0));
                }
            }
            assert forall|x: u64| pre.contains(x) && x != id.0 implies
                self.contains(x) && self.tile_of(x) == pre.tile_of(x) by {
                let i = pre.idx_of(x);
                assert(i != k0);
                let j = if i < k0 { i } else { i - 1 };
                assert(self.entries@[j] == pre.entries@[f(j)]);
                assert(f(j) == i);
                assert(self.id_at(j) == x);
                self.lemma_idx_of(j);
                pre.lemma_idx_of(i);
            }
            assert forall|i: int, k: int| self.child_slot(i, k) implies
                self.contains(#[trigger] self.child_at(i, k))
                && self.id_at(i) < self.child_at(i, k) by {
                assert(self.entries@[i] == pre.entries@[f(i)]);
                assert(pre.child_slot(f(i), k));
                assert(pre.contains(pre.child_at(f(i), k)));
                assert(self.child_at(i, k) == pre.child_at(f(i), k));
                // The removed tile was nobody's child, so this child survives.
                assert(self.child_at(i, k) != id.0);
                assert(self.contains(self.child_at(i, k)));
            }
            assert forall|i: int, k: int, j: int, l: int|
                #![trigger self.child_at(i, k), self.child_at(j, l)]
                self.child_slot(i, k) && self.child_slot(j, l)
                    && self.child_at(i, k) == self.child_at(j, l)
                implies i == j && k == l by {
                assert(self.entries@[i] == pre.entries@[f(i)]);
                assert(self.entries@[j] == pre.entries@[f(j)]);
                assert(pre.child_slot(f(i), k) && pre.child_slot(f(j), l));
                assert(pre.child_at(f(i), k) == self.child_at(i, k));
                assert(pre.child_at(f(j), l) == self.child_at(j, l));
            }
            assert(self.wf());
            assert forall|c: u64| self.is_child(c) implies pre.is_child(c) by {
                let (i, k): (int, int) = choose|i: int, k: int|
                    #![trigger self.child_at(i, k)]
                    self.child_slot(i, k) && self.child_at(i, k) == c;
                assert(self.entries@[i] == pre.entries@[f(i)]);
                assert(pre.child_slot(f(i), k) && pre.child_at(f(i), k) == c);
            }
            assert forall|c: u64| pre.is_child(c) implies self.is_child(c) by {
                let (i, k): (int, int) = choose|i: int, k: int|
                    #![trigger pre.child_at(i, k)]
                    pre.child_slot(i, k) && pre.child_at(i, k) == c;
                // The removed entry had no children, so i is not k0.
                assert(i != k0);
                let j = if i < k0 { i } else { i - 1 };
                assert(self.entries@[j] == pre.entries@[f(j)]);
                assert(f(j) == i);
                assert(self.child_slot(j, k) && self.child_at(j, k) == c);
            }
            assert forall|p: u32| self.has_panel(p) implies
                exists|i: int| 0 <= i < pre.num()
                    && pre.id_at(i) != id.0
                    && (#[trigger] pre.tile_at(i)).is_pane()
                    && pre.tile_at(i).spec_panel().id == p by {
                let j = choose|j: int| 0 <= j < self.num()
                    && (#[trigger] self.tile_at(j)).is_pane()
                    && self.tile_at(j).spec_panel().id == p;
                assert(self.entries@[j] == pre.entries@[f(j)]);
                assert(pre.id_at(f(j)) != pre.id_at(k0));
                assert(pre.tile_at(f(j)).is_pane() && pre.tile_at(f(j)).spec_panel().id == p);
            }
            assert forall|p: u32|
                exists|i: int| 0 <= i < pre.num()
                    && pre.id_at(i) != id.0
                    && (#[trigger] pre.tile_at(i)).is_pane()
                    && pre.tile_at(i).spec_panel().id == p
                implies self.has_panel(p) by {
                let i = choose|i: int| 0 <= i < pre.num()
                    && pre.id_at(i) != id.0
                    && (#[trigger] pre.tile_at(i)).is_pane()
                    && pre.tile_at(i).spec_panel().id == p;
                assert(i != k0);
                let j = if i < k0 { i } else { i - 1 };
                assert(self.entries@[j] == pre.entries@[f(j)]);
                assert(f(j) == i);
                assert(self.tile_at(j).is_pane() && self.tile_at(j).spec_panel().id == p);
            }
        }
        Some(entry.tile)
    }

    /// The active selection of the container under `id` (`None` for panes
    /// and linear splits).
    pub open spec fn active_of(self, id: u64) -> Option<TileId> {
        match self.tile_of(id) {
            Tile::Container(c) => c.spec_active(),
            Tile::Pane(_) => None,
        }
    }

    /// The share weights of the linear split under `id`.
    pub open spec fn shares_of(self, id: u64) -> Seq<u64> {
        match self.tile_of(id) {
            Tile::Container(Container::Linear(l)) => l.shares@,
            _ => Seq::empty(),
        }
    }

    /// Append `child` to the tabs container under `parent`.  The child must
    /// already live in the arena, be parentless, and carry a larger handle
    /// than the parent.  The active selection is unchanged.
    pub fn tabs_add_child(&mut self, parent: TileId, child: TileId)
        requires
            old(self).wf(),
            old(self).is_tabs(parent.0),
            old(self).contains(child.0),
            !old(self).is_child(child.0),
            parent.0 < child.0,
        ensures
            final(self).wf(),
            final(self).num() == old(self).num(),
            final(self).next_container_id == old(self).next_container_id,
            final(self).next_pane_id == old(self).next_pane_id,
            forall|j: int| 0 <= j < old(self).num()
                ==> final(self).id_at(j) == old(self).id_at(j),
            forall|x: u64| final(self).contains(x) <==> old(self).contains(x),
            forall|x: u64| old(self).contains(x) && x != parent.0
                ==> final(self).tile_of(x) == old(self).tile_of(x),
            final(self).is_tabs(parent.0),
            final(self).children_of(parent.0) == old(self).children_of(parent.0).push(child),
            final(self).active_of(parent.0) == old(self).active_of(parent.0),
            forall|c: u64| final(self).is_child(c) <==> (old(self).is_child(c) || c == child.0),
            forall|p: u32| final(self).has_panel(p) <==> old(self).has_panel(p),
    {
        let i = match self.find_index(parent) {
            Some(i) => i,
            None => {
                proof {
                    assert(false);
                }
                0
            },
        };
        proof {
            self.lemma_idx_of(i as int);
        }
        let e = &mut self.entries[i];
        match &mut e.tile {
            Tile::Container(Container::Tabs(t)) => {
                t.children.push(child);
            },
            _ => {
                proof {
                    assert(false);
                }
            },
        }
        proof {
            let pre = *old(self);
            let i0 = i as int;
            let n = pre.num();
            assert(self.entries@ =~= pre.entries@.update(i0, self.entries@[i0]));
            assert forall|j: int| 0 <= j < n && j != i0
                implies self.entries@[j] == pre.entries@[j] by {}
            self.mutation_common(pre, i0);
            let oldc = pre.children_at(i0);
            assert(self.children_at(i0) == oldc.push(child));
            // The changed entry is still a well-formed tabs container.
            assert(self.entry_wf(i0)) by {
                assert(pre.entry_wf(i0));
                match self.tile_at(i0) {
                    Tile::Container(c) => {
                        match c {
                            Container::Tabs(t) => {
                                match t.active {
                                    Some(a) => {
                                        let w = choose|w: int|
                                            0 <= w < oldc.len() && oldc[w] == a;
                                        assert(t.children@[w] == a);
                                        assert(t.children@.contains(a));
                                    },
                                    None => {},
                                }
                            },
                            Container::Linear(_) => {},
                        }
                    },
                    Tile::Pane(_) => {},
                }
            }
            assert forall|j: int| 0 <= j < self.num() implies #[trigger] self.entry_wf(j) by {
                if j != i0 {
                    assert(pre.entry_wf(j));
                    assert(self.entries@[j] == pre.entries@[j]);
                }
            }
            assert forall|j: int, k: int| self.child_slot(j, k) implies
                self.contains(#[trigger] self.child_at(j, k))
                && self.id_at(j) < self.child_at(j, k) by {
                if j != i0 {
                    assert(self.entries@[j] == pre.entries@[j]);
                    assert(pre.child_slot(j, k));
                    assert(pre.contains(pre.child_at(j, k)));
                } else if k < oldc.len() {
                    assert(pre.child_slot(j, k));
                    assert(self.child_at(j, k) == pre.child_at(j, k));
                    assert(pre.contains(pre.child_at(j, k)));
                } else {
                    assert(self.child_at(j, k) == child.0);
                    assert(pre.contains(child.0));
                    assert(pre.id_at(i0) == parent.0);
                }
            }
            assert forall|j: int, k: int, j2: int, l: int|
                #![trigger self.child_at(j, k), self.child_at(j2, l)]
                self.child_slot(j, k) && self.child_slot(j2, l)
                    && self.child_at(j, k) == self.child_at(j2, l)
                implies j == j2 && k == l by {
                let new_slot_j = j == i0 && k == oldc.len();
                let new_slot_j2 = j2 == i0 && l == oldc.len();
                if !new_slot_j && !new_slot_j2 {
                    assert(pre.child_slot(j, k) && pre.child_at(j, k) == self.child_at(j, k));
                    assert(pre.child_slot(j2, l) && pre.child_at(j2, l) == self.child_at(j2, l));
                } else if new_slot_j && !new_slot_j2 {
                    assert(pre.child_slot(j2, l) && pre.child_at(j2, l) == self.child_at(j2, l));
                    assert(pre.is_child(child.0));
                    assert(false);
                } else if !new_slot_j && new_slot_j2 {
                    assert(pre.child_slot(j, k) && pre.child_at(j, k) == self.child_at(j, k));
                    assert(pre.is_child(child.0));
                    assert(false);
                }
            }
            assert(self.wf());
            assert forall|c: u64| self.is_child(c) implies
                (pre.is_child(c) || c == child.0) by {
                let (j, k): (int, int) = choose|j: int, k: int|
                    #![trigger self.child_at(j, k)]
                    self.child_slot(j, k) && self.child_at(j, k) == c;
                if j != i0 || k < oldc.len() {
                    assert(pre.child_slot(j, k) && pre.child_at(j, k) == c);
                }
            }
            assert forall|c: u64| pre.is_child(c) implies self.is_child(c) by {
                let (j, k): (int, int) = choose|j: int, k: int|
                    #![trigger pre.child_at(j, k)]
                    pre.child_slot(j, k) && pre.child_at(j, k) == c;
                assert(self.child_slot(j, k) && self.child_at(j, k) == c);
            }
            assert(self.child_slot(i0, oldc.len() as int)
                && self.child_at(i0, oldc.len() as int) == child.0);
        }
    }

    /// Common bookkeeping after mutating the tile (not the handle) of the
    /// entry at index `i`: handle lookups and the panel population are
    /// unchanged, as are all other tiles; provided the changed entry stays a
    /// container.
    proof fn mutation_common(self, pre: Tiles, i: int)
        requires
            pre.wf(),
            0 <= i < pre.num(),
            self.num() == pre.num(),
            self.next_container_id == pre.next_container_id,
            self.next_pane_id == pre.next_pane_id,
            forall|j: int| 0 <= j < pre.num() && j != i ==> self.entries@[j] == pre.entries@[j],
            self.entries@[i].id == pre.entries@[i].id,
            self.tile_at(i) is Container,
            pre.tile_at(i) is Container,
        ensures
            self.ids_distinct(),
            forall|j: int| 0 <= j < pre.num() ==> self.id_at(j) == pre.id_at(j),
            forall|x: u64| self.contains(x) <==> pre.contains(x),
            forall|x: u64| pre.contains(x) && x != pre.id_at(i)
                ==> self.tile_of(x) == pre.tile_of(x),
            self.idx_of(pre.id_at(i)) == i,
            self.tile_of(pre.id_at(i)) == self.tile_at(i),
            pre.idx_of(pre.id_at(i)) == i,
            pre.tile_of(pre.id_at(i)) == pre.tile_at(i),
            forall|p: u32| self.has_panel(p) <==> pre.has_panel(p),
    {
        assert forall|j: int| 0 <= j < pre.num()
            implies self.id_at(j) == pre.id_at(j) by {
            if j != i {
                assert(self.entries@[j] == pre.entries@[j]);
            }
        }
        pre.lemma_same_ids(self);
        assert forall|x: u64| pre.contains(x) && x != pre.id_at(i) implies
            self.tile_of(x) == pre.tile_of(x) by {
            let w = pre.idx_of(x);
            assert(w != i);
            assert(self.entries@[w] == pre.entries@[w]);
        }
        self.lemma_idx_of(i);
        pre.lemma_idx_of(i);
        assert forall|p: u32| self.has_panel(p) implies pre.has_panel(p) by {
            let j = choose|j: int| 0 <= j < self.num()
                && (#[trigger] self.tile_at(j)).is_pane()
                && self.tile_at(j).spec_panel().id == p;
            assert(j != i);
            assert(self.entries@[j] == pre.entries@[j]);
            assert(pre.tile_at(j).is_pane() && pre.tile_at(j).spec_panel().id == p);
        }
        assert forall|p: u32| pre.has_panel(p) implies self.has_panel(p) by {
            let j = choose|j: int| 0 <= j < pre.num()
                && (#[trigger] pre.tile_at(j)).is_pane()
                && pre.tile_at(j).spec_panel().id == p;
            assert(j != i);
            assert(self.entries@[j] == pre.entries@[j]);
            assert(self.tile_at(j).is_pane() && self.tile_at(j).spec_panel().id == p);
        }
    }

    /// Make `child` the active selection of the tabs container under
    /// `parent`.  It must be one of that container's children.
    pub fn tabs_set_active(&mut self, parent: TileId, child: TileId)
        requires
            old(self).wf(),
            old(self).is_tabs(parent.0),
            old(self).children_of(parent.0).contains(child),
        ensures
            final(self).wf(),
            final(self).num() == old(self).num(),
            final(self).next_container_id == old(self).next_container_id,
            final(self).next_pane_id == old(self).next_pane_id,
            forall|j: int| 0 <= j < old(self).num()
                ==> final(self).id_at(j) == old(self).id_at(j),
            forall|x: u64| final(self).contains(x) <==> old(self).contains(x),
            forall|x: u64| old(self).contains(x) && x != parent.0
                ==> final(self).tile_of(x) == old(self).tile_of(x),
            final(self).is_tabs(parent.0),
            final(self).children_of(parent.0) == old(self).children_of(parent.0),
            final(self).active_of(parent.0) == Some(child),
            forall|c: u64| final(self).is_child(c) <==> old(self).is_child(c),
            forall|p: u32| final(self).has_panel(p) <==> old(self).has_panel(p),
    {
        let i = match self.find_index(parent) {
            Some(i) => i,
            None => {
                proof {
                    assert(false);
                }
                0
            },
        };
        proof {
            self.lemma_idx_of(i as int);
        }
        let e = &mut self.entries[i];
        match &mut e.tile {
            Tile::Container(Container::Tabs(t)) => {
                t.active = Some(child);
            },
            _ => {
                proof {
                    assert(false);
                }
            },
        }
        proof {
            let pre = *old(self);
            let i0 = i as int;
            self.mutation_common(pre, i0);
            assert(self.children_at(i0) == pre.children_at(i0));
            assert(self.entry_wf(i0)) by {
                assert(pre.entry_wf(i0));
            }
            assert forall|j: int| 0 <= j < self.num() implies #[trigger] self.entry_wf(j) by {
                if j != i0 {
                    assert(pre.entry_wf(j));
                    assert(self.entries@[j] == pre.entries@[j]);
                }
            }
            assert forall|j: int, k: int| self.child_slot(j, k) implies
                self.contains(#[trigger] self.child_at(j, k))
                && self.id_at(j) < self.child_at(j, k) by {
                if j != i0 {
                    assert(self.entries@[j] == pre.entries@[j]);
                }
                assert(pre.child_slot(j, k));
                assert(self.child_at(j, k) == pre.child_at(j, k));
                assert(pre.contains(pre.child_at(j, k)));
            }
            assert forall|j: int, k: int, j2: int, l: int|
                #![trigger self.child_at(j, k), self.child_at(j2, l)]
                self.child_slot(j, k) && self.child_slot(j2, l)
                    && self.child_at(j, k) == self.child_at(j2, l)
                implies j == j2 && k == l by {
                if j != i0 {
                    assert(self.entries@[j] == pre.entries@[j]);
                }
                if j2 != i0 {
                    assert(self.entries@[j2] == pre.entries@[j2]);
                }
                assert(pre.child_slot(j, k) && pre.child_at(j, k) == self.child_at(j, k));
                assert(pre.child_slot(j2, l) && pre.child_at(j2, l) == self.child_at(j2, l));
            }
            assert(self.wf());
            assert forall|c: u64| self.is_child(c) implies pre.is_child(c) by {
                let (j, k): (int, int) = choose|j: int, k: int|
                    #![trigger self.child_at(j, k)]
                    self.child_slot(j, k) && self.child_at(j, k) == c;
                assert(pre.child_slot(j, k) && pre.child_at(j, k) == c);
            }
            assert forall|c: u64| pre.is_child(c) implies self.is_child(c) by {
                let (j, k): (int, int) = choose|j: int, k: int|
                    #![trigger pre.child_at(j, k)]
                    pre.child_slot(j, k) && pre.child_at(j, k) == c;
                assert(self.child_slot(j, k) && self.child_at(j, k) == c);
            }
        }
    }

    /// Remove `child` from the children of the container under `parent`.
    /// The child tile itself stays in the arena, now parentless.  If it was
    /// the active tab, the first remaining child (if any) becomes active; a
    /// linear split also drops the child's share weight.
    #[verifier::rlimit(80)]
    #[verifier::spinoff_prover]
    pub fn remove_child(&mut self, parent: TileId, child: TileId)
        requires
            old(self).wf(),
            old(self).is_container(parent.0),
            old(self).children_of(parent.0).contains(child),
        ensures
            final(self).wf(),
            final(self).num() == old(self).num(),
            final(self).next_container_id == old(self).next_container_id,
            final(self).next_pane_id == old(self).next_pane_id,
            forall|j: int| 0 <= j < old(self).num()
                ==> final(self).id_at(j) == old(self).id_at(j),
            forall|x: u64| final(self).contains(x) <==> old(self).contains(x),
            forall|x: u64| old(self).contains(x) && x != parent.0
                ==> final(self).tile_of(x) == old(self).tile_of(x),
            final(self).is_container(parent.0),
            final(self).is_tabs(parent.0) == old(self).is_tabs(parent.0),
            final(self).children_of(parent.0) == old(self).children_of(parent.0).remove(
                seq_index_of(old(self).children_of(parent.0), child),
            ),
            0 <= seq_index_of(old(self).children_of(parent.0), child)
                < old(self).children_of(parent.0).len(),
            old(self).children_of(parent.0)[seq_index_of(
                old(self).children_of(parent.0),
                child,
            )] == child,
            old(self).is_tabs(parent.0) ==> final(self).active_of(parent.0) == (
                if old(self).active_of(parent.0) == Some(child) {
                    if final(self).children_of(parent.0).len() > 0 {
                        Some(final(self).children_of(parent.0)[0])
                    } else {
                        None::<TileId>
                    }
                } else {
                    old(self).active_of(parent.0)
                }
            ),
            (old(self).tile_of(parent.0) matches Tile::Container(Container::Linear(_)))
                ==> final(self).shares_of(parent.0) == old(self).shares_of(parent.0).remove(
                    seq_index_of(old(self).children_of(parent.0), child),
                ),
            forall|c: u64| final(self).is_child(c) <==> (old(self).is_child(c) && c != child.0),
            forall|p: u32| final(self).has_panel(p) <==> old(self).has_panel(p),
    {
        let i = match self.find_index(parent) {
            Some(i) => i,
            None => {
                proof {
                    assert(false);
                }
                0
            },
        };
        proof {
            self.lemma_idx_of(i as int);
        }
        let k = match &self.entries[i].tile {
            Tile::Container(c) => {
                match position_of(c.children(), child) {
                    Some(k) => k,
                    None => {
                        proof {
                            assert(false);
                        }
                        0
                    },
                }
            },
            Tile::Pane(_) => {
                proof {
                    assert(false);
                }
                0
            },
        };
        let ghost pre = *self;
        let ghost i0 = i as int;
        let ghost k0 = k as int;
        let ghost oldc = pre.children_at(i0);
        proof {
            // The occurrence found is the unique one.
            let k1 = seq_index_of(oldc, child);
            assert(0 <= k1 < oldc.len() && oldc[k1] == child);
            if k1 != k0 {
                assert(pre.child_at(i0, k1) == pre.child_at(i0, k0));
                assert(false);
            }
            oldc.remove_ensures(k0);
            pre.lemma_idx_of(i0);
            assert(pre.entry_wf(i0));
            match pre.tile_at(i0) {
                Tile::Container(Container::Linear(l)) => {
                    assert(l.shares@.len() == oldc.len());
                    pre.shares_of(parent.0).remove_ensures(k0);
                },
                _ => {},
            }
        }
        let e = &mut self.entries[i];
        match &mut e.tile {
            Tile::Container(Container::Tabs(t)) => {
                t.children.remove(k);
                let fix = match t.active {
                    Some(a) => a.0 == child.0,
                    None => false,
                };
                if fix {
                    if t.children.len() > 0 {
                        let first = t.children[0];
                        t.active = Some(first);
                    } else {
                        t.active = None;
                    }
                }
            },
            Tile::Container(Container::Linear(l)) => {
                l.children.remove(k);
                l.shares.remove(k);
            },
            Tile::Pane(_) => {
                proof {
                    assert(false);
                }
            },
        }
        proof {
            let n = pre.num();
            self.mutation_common(pre, i0);
            let newc = self.children_at(i0);
            assert(newc == oldc.remove(k0));
            // Surviving child slots of the parent map back to old positions.
            let f = |t: int| if t < k0 { t } else { t + 1 };
            assert forall|t: int| 0 <= t < newc.len()
                implies newc[t] == oldc[f(t)] && f(t) != k0 by {}
            // Within the parent, each handle occurred at most once, so a
            // handle other than the removed one keeps a slot.
            assert forall|a: TileId| oldc.contains(a) && a != child
                implies newc.contains(a) by {
                let w = choose|w: int| 0 <= w < oldc.len() && oldc[w] == a;
                assert(pre.child_at(i0, w) == a.0);
                if w == k0 {
                    assert(false);
                }
                let t = if w < k0 { w } else { w - 1 };
                assert(newc[t] == oldc[f(t)]);
                assert(f(t) == w);
            }
            assert(self.entry_wf(i0)) by {
                assert(pre.entry_wf(i0));
                match self.tile_at(i0) {
                    Tile::Container(c) => {
                        match c {
                            Container::Tabs(t) => {
                                match t.active {
                                    Some(a) => {
                                        if a != child && pre.active_of(parent.0) == Some(a) {
                                            assert(oldc.contains(a));
                                            assert(newc.contains(a));
                                        } else {
                                            assert(newc.len() > 0 && a == newc[0]);
                                            assert(newc.contains(a));
                                        }
                                    },
                                    None => {},
                                }
                            },
                            Container::Linear(l) => {
                                assert forall|t: int| 0 <= t < l.shares@.len()
                                    implies #[trigger] l.shares@[t] >= 1 by {
                                    assert(l.shares@[t] == pre.shares_of(parent.0)[f(t)]);
                                }
                            },
                        }
                    },
                    Tile::Pane(_) => {},
                }
            }
            assert forall|j: int| 0 <= j < self.num() implies #[trigger] self.entry_wf(j) by {
                if j != i0 {
                    assert(pre.entry_wf(j));
                    assert(self.entries@[j] == pre.entries@[j]);
                }
            }
            assert forall|j: int, t: int| self.child_slot(j, t) implies
                self.contains(#[trigger] self.child_at(j, t))
                && self.id_at(j) < self.child_at(j, t) by {
                if j != i0 {
                    assert(self.entries@[j] == pre.entries@[j]);
                    assert(pre.child_slot(j, t));
                    assert(self.child_at(j, t) == pre.child_at(j, t));
                    assert(pre.contains(pre.child_at(j, t)));
                } else {
                    assert(newc[t] == oldc[f(t)]);
                    assert(pre.child_slot(i0, f(t)));
                    assert(self.child_at(j, t) == pre.child_at(i0, f(t)));
                    assert(pre.contains(pre.child_at(i0, f(t))));
                }
            }
            assert forall|j: int, t: int, j2: int, l: int|
                #![trigger self.child_at(j, t), self.child_at(j2, l)]
                self.child_slot(j, t) && self.child_slot(j2, l)
                    && self.child_at(j, t) == self.child_at(j2, l)
                implies j == j2 && t == l by {
                let t1 = if j == i0 { f(t) } else { t };
                let l1 = if j2 == i0 { f(l) } else { l };
                if j != i0 {
                    assert(self.entries@[j] == pre.entries@[j]);
                } else {
                    assert(newc[t] == oldc[f(t)]);
                }
                if j2 != i0 {
                    assert(self.entries@[j2] == pre.entries@[j2]);
                } else {
                    assert(newc[l] == oldc[f(l)]);
                }
                assert(pre.child_slot(j, t1) && pre.child_at(j, t1) == self.child_at(j, t));
                assert(pre.child_slot(j2, l1) && pre.child_at(j2, l1) == self.child_at(j2, l));
            }
            assert(self.wf());
            assert forall|c: u64| self.is_child(c) implies
                (pre.is_child(c) && c != child.0) by {
                let (j, t): (int, int) = choose|j: int, t: int|
                    #![trigger self.child_at(j, t)]
                    self.child_slot(j, t) && self.child_at(j, t) == c;
                let t1 = if j == i0 { f(t) } else { t };
                if j != i0 {
                    assert(self.entries@[j] == pre.entries@[j]);
                } else {
                    assert(newc[t] == oldc[f(t)]);
                }
                assert(pre.child_slot(j, t1) && pre.child_at(j, t1) == c);
                if c == child.0 {
                    assert(pre.child_at(i0, k0) == c);
                    assert(false);
                }
            }
            assert forall|c: u64| pre.is_child(c) && c != child.0
                implies self.is_child(c) by {
                let (j, t): (int, int) = choose|j: int, t: int|
                    #![trigger pre.child_at(j, t)]
                    pre.child_slot(j, t) && pre.child_at(j, t) == c;
                if j != i0 {
                    assert(self.entries@[j] == pre.entries@[j]);
                    assert(self.child_slot(j, t) && self.child_at(j, t) == c);
                } else {
                    assert(t != k0);
                    let t2 = if t < k0 { t } else { t - 1 };
                    assert(newc[t2] == oldc[f(t2)]);
                    assert(f(t2) == t);
                    assert(self.child_slot(j, t2) && self.child_at(j, t2) == c);
                }
            }
        }
    }

    /// Swap one child of the container under `parent` for another, keeping
    /// its position, its share weight, and whether it was the active tab.
    /// The incoming child must live in the arena, be parentless, and carry a
    /// larger handle than the parent; the outgoing child stays in the arena,
    /// now parentless.
    pub fn replace_child(&mut self, parent: TileId, old_child: TileId, new_child: TileId)
        requires
            old(self).wf(),
            old(self).is_container(parent.0),
            old(self).children_of(parent.0).contains(old_child),
            old(self).contains(new_child.0),
            !old(self).is_child(new_child.0),
            parent.0 < new_child.0,
        ensures
            final(self).wf(),
            final(self).num() == old(self).num(),
            final(self).next_container_id == old(self).next_container_id,
            final(self).next_pane_id == old(self).next_pane_id,
            forall|j: int| 0 <= j < old(self).num()
                ==> final(self).id_at(j) == old(self).id_at(j),
            forall|x: u64| final(self).contains(x) <==> old(self).contains(x),
            forall|x: u64| old(self).contains(x) && x != parent.0
                ==> final(self).tile_of(x) == old(self).tile_of(x),
            final(self).is_container(parent.0),
            final(self).is_tabs(parent.0) == old(self).is_tabs(parent.0),
            final(self).children_of(parent.0) == old(self).children_of(parent.0).update(
                seq_index_of(old(self).children_of(parent.0), old_child),
                new_child,
            ),
            final(self).shares_of(parent.0) == old(self).shares_of(parent.0),
            old(self).is_tabs(parent.0) ==> final(self).active_of(parent.0) == (
                if old(self).active_of(parent.0) == Some(old_child) {
                    Some(new_child)
                } else {
                    old(self).active_of(parent.0)
                }
            ),
            forall|c: u64| final(self).is_child(c)
                <==> ((old(self).is_child(c) && c != old_child.0) || c == new_child.0),
            forall|p: u32| final(self).has_panel(p) <==> old(self).has_panel(p),
    {
        let i = match self.find_index(parent) {
            Some(i) => i,
            None => {
                proof {
                    assert(false);
                }
                0
            },
        };
        proof {
            self.lemma_idx_of(i as int);
        }
        let k = match &self.entries[i].tile {
            Tile::Container(c) => {
                match position_of(c.children(), old_child) {
                    Some(k) => k,
                    None => {
                        proof {
                            assert(false);
                        }
                        0
                    },
                }
            },
            Tile::Pane(_) => {
                proof {
                    assert(false);
                }
                0
            },
        };
        let ghost pre = *self;
        let ghost i0 = i as int;
        let ghost k0 = k as int;
        let ghost oldc = pre.children_at(i0);
        proof {
            let k1 = seq_index_of(oldc, old_child);
            assert(0 <= k1 < oldc.len() && oldc[k1] == old_child);
            if k1 != k0 {
                assert(pre.child_at(i0, k1) == pre.child_at(i0, k0));
                assert(false);
            }
            pre.lemma_idx_of(i0);
            assert(pre.entry_wf(i0));
        }
        let e = &mut self.entries[i];
        match &mut e.tile {
            Tile::Container(Container::Tabs(t)) => {
                t.children[k] = new_child;
                let fix = match t.active {
                    Some(a) => a.0 == old_child.0,
                    None => false,
                };
                if fix {
                    t.active = Some(new_child);
                }
            },
            Tile::Container(Container::Linear(l)) => {
                l.children[k] = new_child;
            },
            Tile::Pane(_) => {
                proof {
                    assert(false);
                }
            },
        }
        proof {
            let n = pre.num();
            self.mutation_common(pre, i0);
            let newc = self.children_at(i0);
            assert(newc =~= oldc.update(k0, new_child));
            // Handles other than the swapped one keep their slots.
            assert forall|a: TileId| oldc.contains(a) && a != old_child
                implies newc.contains(a) by {
                let w = choose|w: int| 0 <= w < oldc.len() && oldc[w] == a;
                assert(pre.child_at(i0, w) == a.0);
                if w == k0 {
                    assert(false);
                }
                assert(newc[w] == a);
            }
            assert(self.entry_wf(i0)) by {
                match self.tile_at(i0) {
                    Tile::Container(c) => {
                        match c {
                            Container::Tabs(t) => {
                                match t.active {
                                    Some(a) => {
                                        if a == new_child {
                                            assert(newc[k0] == a);
                                            assert(newc.contains(a));
                                        } else {
                                            assert(oldc.contains(a));
                                            assert(newc.contains(a));
                                        }
                                    },
                                    None => {},
                                }
                            },
                            Container::Linear(l) => {
                                assert(l.shares@ == pre.shares_of(parent.0));
                            },
                        }
                    },
                    Tile::Pane(_) => {},
                }
            }
            assert forall|j: int| 0 <= j < self.num() implies #[trigger] self.entry_wf(j) by {
                if j != i0 {
                    assert(pre.entry_wf(j));
                    assert(self.entries@[j] == pre.entries@[j]);
                }
            }
            assert forall|j: int, t: int| self.child_slot(j, t) implies
                self.contains(#[trigger] self.child_at(j, t))
                && self.id_at(j) < self.child_at(j, t) by {
                if j != i0 {
                    assert(self.entries@[j] == pre.entries@[j]);
                    assert(pre.child_slot(j, t));
                    assert(self.child_at(j, t) == pre.child_at(j, t));
                    assert(pre.contains(pre.child_at(j, t)));
                } else if t != k0 {
                    assert(newc[t] == oldc[t]);
                    assert(pre.child_slot(i0, t));
                    assert(self.child_at(j, t) == pre.child_at(i0, t));
                    assert(pre.contains(pre.child_at(i0, t)));
                } else {
                    assert(self.child_at(j, t) == new_child.0);
                    assert(pre.contains(new_child.0));
                    assert(pre.id_at(i0) == parent.0);
                }
            }
            assert forall|j: int, t: int, j2: int, l: int|
                #![trigger self.child_at(j, t), self.child_at(j2, l)]
                self.child_slot(j, t) && self.child_slot(j2, l)
                    && self.child_at(j, t) == self.child_at(j2, l)
                implies j == j2 && t == l by {
                let slot1_new = j == i0 && t == k0;
                let slot2_new = j2 == i0 && l == k0;
                if j != i0 {
                    assert(self.entries@[j] == pre.entries@[j]);
                } else if t != k0 {
                    assert(newc[t] == oldc[t]);
                }
                if j2 != i0 {
                    assert(self.entries@[j2] == pre.entries@[j2]);
                } else if l != k0 {
                    assert(newc[l] == oldc[l]);
                }
                if !slot1_new && !slot2_new {
                    assert(pre.child_slot(j, t) && pre.child_at(j, t) == self.child_at(j, t));
                    assert(pre.child_slot(j2, l) && pre.child_at(j2, l) == self.child_at(j2, l));
                } else if slot1_new && !slot2_new {
                    assert(pre.child_slot(j2, l) && pre.child_at(j2, l) == self.child_at(j2, l));
                    assert(pre.is_child(new_child.0));
                    assert(false);
                } else if !slot1_new && slot2_new {
                    assert(pre.child_slot(j, t) && pre.child_at(j, t) == self.child_at(j, t));
                    assert(pre.is_child(new_child.0));
                    assert(false);
                }
            }
            assert(self.wf());
            assert forall|c: u64| self.is_child(c) implies
                ((pre.is_child(c) && c != old_child.0) || c == new_child.0) by {
                let (j, t): (int, int) = choose|j: int, t: int|
                    #![trigger self.child_at(j, t)]
                    self.child_slot(j, t) && self.child_at(j, t) == c;
                if j == i0 && t == k0 {
                    assert(c == new_child.0);
                } else {
                    if j != i0 {
                        assert(self.entries@[j] == pre.entries@[j]);
                    } else {
                        assert(newc[t] == oldc[t]);
                    }
                    assert(pre.child_slot(j, t) && pre.child_at(j, t) == c);
                    if c == old_child.0 {
                        assert(pre.child_at(i0, k0) == c);
                        assert(false);
                    }
                }
            }
            assert forall|c: u64| ((pre.is_child(c) && c != old_child.0) || c == new_child.0)
                implies self.is_child(c) by {
                if c == new_child.0 {
                    assert(newc[k0] == new_child);
                    assert(self.child_slot(i0, k0) && self.child_at(i0, k0) == c);
                } else {
                    let (j, t): (int, int) = choose|j: int, t: int|
                        #![trigger pre.child_at(j, t)]
                        pre.child_slot(j, t) && pre.child_at(j, t) == c;
                    if j != i0 {
                        assert(self.entries@[j] == pre.entries@[j]);
                        assert(self.child_slot(j, t) && self.child_at(j, t) == c);
                    } else {
                        assert(t != k0);
                        assert(newc[t] == oldc[t]);
                        assert(self.child_slot(j, t) && self.child_at(j, t) == c);
                    }
                }
            }
        }
    }

    /// Set the share weight of `child` within the linear split under
    /// `parent`.  The weight must be positive.
    pub fn set_share(&mut self, parent: TileId, child: TileId, share: u64)
        requires
            old(self).wf(),
            old(self).tile_of(parent.0) matches Tile::Container(Container::Linear(_)),
            old(self).contains(parent.0),
            old(self).children_of(parent.0).contains(child),
            share >= 1,
        ensures
            final(self).wf(),
            final(self).num() == old(self).num(),
            final(self).next_container_id == old(self).next_container_id,
            final(self).next_pane_id == old(self).next_pane_id,
            forall|j: int| 0 <= j < old(self).num()
                ==> final(self).id_at(j) == old(self).id_at(j),
            forall|x: u64| final(self).contains(x) <==> old(self).contains(x),
            forall|x: u64| old(self).contains(x) && x != parent.0
                ==> final(self).tile_of(x) == old(self).tile_of(x),
            final(self).children_of(parent.0) == old(self).children_of(parent.0),
            final(self).tile_of(parent.0) matches Tile::Container(Container::Linear(_)),
            final(self).contains(parent.0),
            final(self).shares_of(parent.0) == old(self).shares_of(parent.0).update(
                seq_index_of(old(self).children_of(parent.0), child),
                share,
            ),
            forall|c: u64| final(self).is_child(c) <==> old(self).is_child(c),
            forall|p: u32| final(self).has_panel(p) <==> old(self).has_panel(p),
    {
        let i = match self.find_index(parent) {
            Some(i) => i,
            None => {
                proof {
                    assert(false);
                }
                0
            },
        };
        proof {
            self.lemma_idx_of(i as int);
        }
        let k = match &self.entries[i].tile {
            Tile::Container(c) => {
                match position_of(c.children(), child) {
                    Some(k) => k,
                    None => {
                        proof {
                            assert(false);
                        }
                        0
                    },
                }
            },
            Tile::Pane(_) => {
                proof {
                    assert(false);
                }
                0
            },
        };
        let ghost pre = *self;
        let ghost i0 = i as int;
        let ghost k0 = k as int;
        let ghost oldc = pre.children_at(i0);
        proof {
            let k1 = seq_index_of(oldc, child);
            assert(0 <= k1 < oldc.len() && oldc[k1] == child);
            if k1 != k0 {
                assert(pre.child_at(i0, k1) == pre.child_at(i0, k0));
                assert(false);
            }
            pre.lemma_idx_of(i0);
            assert(pre.entry_wf(i0));
        }
        let e = &mut self.entries[i];
        match &mut e.tile {
            Tile::Container(Container::Linear(l)) => {
                l.shares[k] = share;
            },
            _ => {
                proof {
                    assert(false);
                }
            },
        }
        proof {
            self.mutation_common(pre, i0);
            assert(self.children_at(i0) == oldc);
            assert(self.shares_of(parent.0) =~= pre.shares_of(parent.0).update(k0, share));
            assert(self.entry_wf(i0)) by {
                match self.tile_at(i0) {
                    Tile::Container(Container::Linear(l)) => {
                        assert forall|t: int| 0 <= t < l.shares@.len()
                            implies #[trigger] l.shares@[t] >= 1 by {
                            if t != k0 {
                                assert(l.shares@[t] == pre.shares_of(parent.0)[t]);
                            }
                        }
                    },
                    _ => {},
                }
            }
            assert forall|j: int| 0 <= j < self.num() implies #[trigger] self.entry_wf(j) by {
                if j != i0 {
                    assert(pre.entry_wf(j));
                    assert(self.entries@[j] == pre.entries@[j]);
                }
            }
            assert forall|j: int, t: int| self.child_slot(j, t) implies
                self.contains(#[trigger] self.child_at(j, t))
                && self.id_at(j) < self.child_at(j, t) by {
                if j != i0 {
                    assert(self.entries@[j] == pre.entries@[j]);
                }
                assert(pre.child_slot(j, t));
                assert(self.child_at(j, t) == pre.child_at(j, t));
                assert(pre.contains(pre.child_at(j, t)));
            }
            assert forall|j: int, t: int, j2: int, l: int|
                #![trigger self.child_at(j, t), self.child_at(j2, l)]
                self.child_slot(j, t) && self.child_slot(j2, l)
                    && self.child_at(j, t) == self.child_at(j2, l)
                implies j == j2 && t == l by {
                if j != i0 {
                    assert(self.entries@[j] == pre.entries@[j]);
                }
                if j2 != i0 {
                    assert(self.entries@[j2] == pre.entries@[j2]);
                }
                assert(pre.child_slot(j, t) && pre.child_at(j, t) == self.child_at(j, t));
                assert(pre.child_slot(j2, l) && pre.child_at(j2, l) == self.child_at(j2, l));
            }
            assert(self.wf());
            assert forall|c: u64| self.is_child(c) implies pre.is_child(c) by {
                let (j, t): (int, int) = choose|j: int, t: int|
                    #![trigger self.child_at(j, t)]
                    self.child_slot(j, t) && self.child_at(j, t) == c;
                assert(pre.child_slot(j, t) && pre.child_at(j, t) == c);
            }
            assert forall|c: u64| pre.is_child(c) implies self.is_child(c) by {
                let (j, t): (int, int) = choose|j: int, t: int|
                    #![trigger pre.child_at(j, t)]
                    pre.child_slot(j, t) && pre.child_at(j, t) == c;
                assert(self.child_slot(j, t) && self.child_at(j, t) == c);
            }
        }
    }

    /// True when `id` is currently in the arena.
    pub fn contains_tile(&self, id: TileId) -> (r: bool)
        ensures
            r == self.contains(id.0),
    {
        match self.find_index(id) {
            Some(_) => true,
            None => false,
        }
    }
}

} // verus!
