use vstd::prelude::*;
use crate::tiles::seq_index_of;
use crate::tiles::Container;
use crate::tiles::Tile;
use crate::tiles::TileId;
use crate::tiles::Tiles;

verus! {

/// Policy bundle for the simplification pass, with one independent toggle
/// per kind of pruning.
#[derive(Debug, Clone, Copy, PartialEq, Eq, Structural)]
pub struct SimplificationOptions {
    /// Remove a tabs container that has no children left.
    pub prune_empty_tabs: bool,
    /// Remove a linear container that has no children left.
    pub prune_empty_containers: bool,
    /// Collapse a tabs container around its only child.
    pub prune_single_child_tabs: bool,
    /// Collapse a linear container around its only child.
    pub prune_single_child_containers: bool,
    /// Keep a tabs container around a lone pane (unless the tabs container
    /// itself sits inside another tabs container), so that every pane keeps
    /// a tab bar.
    pub all_panes_must_have_tabs: bool,
}

impl SimplificationOptions {
    /// Whether an empty container of the given variant is pruned.
    pub open spec fn spec_prunes_empty(self, is_tabs: bool) -> bool {
        if is_tabs {
            self.prune_empty_tabs
        } else {
            self.prune_empty_containers
        }
    }

    /// Whether a single-child container of the given variant is collapsed
    /// around its child.
    pub open spec fn spec_prunes_single(
        self,
        is_tabs: bool,
        child_is_pane: bool,
        parent_is_tabs: bool,
    ) -> bool {
        if is_tabs {
            self.prune_single_child_tabs
                && !(self.all_panes_must_have_tabs && child_is_pane && !parent_is_tabs)
        } else {
            self.prune_single_child_containers
        }
    }
}

impl Default for SimplificationOptions {
    /// All four prunes on, panes not forced under tabs.
    fn default() -> (r: Self)
        ensures
            r == (SimplificationOptions {
                prune_empty_tabs: true,
                prune_empty_containers: true,
                prune_single_child_tabs: true,
                prune_single_child_containers: true,
                all_panes_must_have_tabs: false,
            }),
    {
        SimplificationOptions {
            prune_empty_tabs: true,
            prune_empty_containers: true,
            prune_single_child_tabs: true,
            prune_single_child_containers: true,
            all_panes_must_have_tabs: false,
        }
    }
}

/// What a simplification pass may do to the arena: it only removes
/// degenerate containers.  Every pane survives untouched, no handle is
/// allocated, nothing turns into a pane, and the panel population is
/// unchanged.
pub open spec fn simplify_frame(pre: Tiles, post: Tiles) -> bool {
    &&& post.next_container_id == pre.next_container_id
    &&& post.next_pane_id == pre.next_pane_id
    &&& forall|id: u64| post.contains(id) ==> pre.contains(id)
    &&& forall|id: u64| pre.is_pane(id)
        ==> post.contains(id) && post.tile_of(id) == pre.tile_of(id)
    &&& forall|id: u64| post.contains(id) && !pre.is_pane(id) ==> !post.is_pane(id)
    &&& forall|p: u32| post.has_panel(p) <==> pre.has_panel(p)
}

/// The docking tree: the tile arena plus a designated root handle.  An
/// empty tree has no root.
#[derive(Debug, Clone)]
pub struct Tree {
    pub root: Option<TileId>,
    pub tiles: Tiles,
}

impl Tree {
    /// The root, if set, exists in the arena and is not a child of anything.
    pub open spec fn root_ok(self) -> bool {
        match self.root {
            Some(r) => self.tiles.contains(r.0) && !self.tiles.is_child(r.0),
            None => true,
        }
    }

    pub open spec fn wf(self) -> bool {
        self.tiles.wf() && self.root_ok()
    }

    pub open spec fn spec_is_empty(self) -> bool {
        self.root is None
    }

    /// A tree with no tiles at all.
    pub fn empty() -> (t: Tree)
        ensures
            t.wf(),
            t.root is None,
            t.tiles.num() == 0,
            t.tiles.next_container_id == crate::tiles::HANDLE_ORIGIN,
            t.tiles.next_pane_id == crate::tiles::HANDLE_ORIGIN,
            forall|id: u64| !t.tiles.contains(id),
    {
        Tree { root: None, tiles: Tiles::new() }
    }

    /// A tree over an existing arena with a designated root.
    pub fn new(root: TileId, tiles: Tiles) -> (t: Tree)
        requires
            tiles.wf(),
            tiles.contains(root.0),
            !tiles.is_child(root.0),
        ensures
            t.wf(),
            t.root == Some(root),
            t.tiles == tiles,
    {
        Tree { root: Some(root), tiles }
    }

    /// The root handle, if the tree is non-empty.
    pub fn root(&self) -> (r: Option<TileId>)
        ensures
            r == self.root,
    {
        self.root
    }

    pub fn is_empty(&self) -> (r: bool)
        ensures
            r == self.spec_is_empty(),
    {
        match self.root {
            Some(_) => false,
            None => true,
        }
    }

    /// The container whose children list contains `child_id`, or `None` if
    /// `child_id` is the root, absent, or otherwise parentless.  Nodes carry
    /// no back-reference, so this is a linear scan over all tiles.
    pub fn find_parent_of(&self, child_id: TileId) -> (r: Option<TileId>)
        requires
            self.tiles.wf(),
        ensures
            match r {
                Some(p) => self.tiles.is_container(p.0)
                    && self.tiles.children_of(p.0).contains(child_id)
                    && self.tiles.is_child(child_id.0)
                    && p.0 == self.tiles.parent_of(child_id.0),
                None => !self.tiles.is_child(child_id.0),
            },
    {
        let n = self.tiles.entries.len();
        let mut i: usize = 0;
        while i < n
            invariant
                self.tiles.wf(),
                n == self.tiles.num(),
                0 <= i <= n,
                forall|j: int, k: int| 0 <= j < i && self.tiles.child_slot(j, k)
                    ==> #[trigger] self.tiles.child_at(j, k) != child_id.0,
            decreases n - i,
        {
            match &self.tiles.entries[i].tile {
                Tile::Container(c) => {
                    match crate::tiles::position_of(c.children(), child_id) {
                        Some(k) => {
                            proof {
                                self.tiles.lemma_idx_of(i as int);
                                assert(self.tiles.child_slot(i as int, k as int));
                                assert(self.tiles.child_at(i as int, k as int) == child_id.0);
                                assert(self.tiles.children_of(self.tiles.id_at(i as int))
                                    .contains(child_id));
                                self.tiles.lemma_parent_of(child_id.0);
                            }
                            return Some(self.tiles.entries[i].id);
                        },
                        None => {},
                    }
                },
                Tile::Pane(_) => {},
            }
            proof {
                assert forall|k: int| self.tiles.child_slot(i as int, k)
                    implies #[trigger] self.tiles.child_at(i as int, k) != child_id.0 by {
                    match self.tiles.tile_at(i as int) {
                        Tile::Container(c) => {
                            assert(!c.spec_children().contains(child_id));
                            assert(c.spec_children()[k] != child_id);
                        },
                        Tile::Pane(_) => {},
                    }
                }
            }
            i = i + 1;
        }
        proof {
            if self.tiles.is_child(child_id.0) {
                let (j, k): (int, int) = choose|j: int, k: int|
                    #![trigger self.tiles.child_at(j, k)]
                    self.tiles.child_slot(j, k) && self.tiles.child_at(j, k) == child_id.0;
                assert(self.tiles.child_at(j, k) != child_id.0);
            }
        }
        None
    }
    /// Whether a simplification pass starting at `s` changes anything: `s`
    /// must be a container that is empty or single-child, and the policy
    /// must prune its case.
    pub open spec fn spec_simplify_acts(self, s: TileId, options: SimplificationOptions) -> bool {
        &&& self.tiles.is_container(s.0)
        &&& {
            let cs = self.tiles.children_of(s.0);
            ||| (cs.len() == 0 && options.spec_prunes_empty(self.tiles.is_tabs(s.0)))
            ||| (cs.len() == 1 && options.spec_prunes_single(
                self.tiles.is_tabs(s.0),
                self.tiles.is_pane(cs[0].0),
                self.tiles.parent_is_tabs(s.0),
            ))
        }
    }

    /// Everything a simplification pass starting at `s` guarantees about
    /// how `post` relates to `pre`: the frame, exact no-op behavior, and the
    /// exact effect of the two pruning cases.
    pub open spec fn simplify_post(
        pre: Tree,
        post: Tree,
        s: TileId,
        options: SimplificationOptions,
    ) -> bool {
        &&& simplify_frame(pre.tiles, post.tiles)
        &&& (!pre.spec_simplify_acts(s, options) ==> post == pre)
        &&& (pre.spec_simplify_acts(s, options) ==> !post.tiles.contains(s.0))
        &&& (pre.root is None ==> post.root is None)
        &&& ((pre.root matches Some(r) && post.tiles.contains(r.0)) ==> post.root == pre.root)
        // Exact effect of collapsing a single-child container.
        &&& (pre.spec_simplify_acts(s, options) && pre.tiles.children_of(s.0).len() == 1)
            ==> {
                let c0 = pre.tiles.children_of(s.0)[0];
                &&& post.tiles.contains(c0.0)
                &&& post.tiles.tile_of(c0.0) == pre.tiles.tile_of(c0.0)
                &&& (pre.root == Some(s) ==> post.root == Some(c0))
                &&& (pre.tiles.is_child(s.0) ==> {
                    let p = pre.tiles.parent_of(s.0);
                    let oldpc = pre.tiles.children_of(p);
                    &&& post.root == pre.root
                    &&& post.tiles.contains(p)
                    &&& post.tiles.children_of(p) == oldpc.update(seq_index_of(oldpc, s), c0)
                    &&& (pre.tiles.is_tabs(p)
                        ==> post.tiles.active_of(p) == (
                            if pre.tiles.active_of(p) == Some(s) {
                                Some(c0)
                            } else {
                                pre.tiles.active_of(p)
                            }
                        ))
                    &&& forall|x: u64| pre.tiles.contains(x) && x != s.0 && x != p
                        ==> post.tiles.contains(x)
                            && post.tiles.tile_of(x) == pre.tiles.tile_of(x)
                })
                &&& (!pre.tiles.is_child(s.0)
                    ==> (pre.root != Some(s) ==> post.root == pre.root)
                        && forall|x: u64| pre.tiles.contains(x) && x != s.0
                            ==> post.tiles.contains(x)
                                && post.tiles.tile_of(x) == pre.tiles.tile_of(x))
            }
        // Exact effect of pruning an empty container whose removal does not
        // cascade.
        &&& (pre.spec_simplify_acts(s, options) && pre.tiles.children_of(s.0).len() == 0)
            ==> {
                &&& (pre.tiles.is_child(s.0) ==> {
                    let p = pre.tiles.parent_of(s.0);
                    let oldpc = pre.tiles.children_of(p);
                    (oldpc.len() >= 2 || !options.spec_prunes_empty(pre.tiles.is_tabs(p)))
                        ==> post.root == pre.root
                            && post.tiles.contains(p)
                            && post.tiles.children_of(p) == oldpc.remove(
                                seq_index_of(oldpc, s),
                            )
                            && (pre.tiles.is_tabs(p)
                                ==> post.tiles.active_of(p) == (
                                    if pre.tiles.active_of(p) == Some(s) {
                                        if post.tiles.children_of(p).len() > 0 {
                                            Some(post.tiles.children_of(p)[0])
                                        } else {
                                            None::<TileId>
                                        }
                                    } else {
                                        pre.tiles.active_of(p)
                                    }
                                ))
                            && forall|x: u64| pre.tiles.contains(x) && x != s.0 && x != p
                                ==> post.tiles.contains(x)
                                    && post.tiles.tile_of(x) == pre.tiles.tile_of(x)
                })
                &&& (!pre.tiles.is_child(s.0) ==> {
                    &&& (pre.root == Some(s) ==> post.root is None)
                    &&& (pre.root != Some(s) ==> post.root == pre.root)
                    &&& forall|x: u64| pre.tiles.contains(x) && x != s.0
                        ==> post.tiles.contains(x)
                            && post.tiles.tile_of(x) == pre.tiles.tile_of(x)
                })
            }
    }

    /// Prune degenerate containers after a structural edit, starting at
    /// `starting_at`.  An empty container is removed from its parent and the
    /// arena, and the pruning recurses upward exactly when that removal
    /// itself empties the parent (policy-gated).  A single-child container
    /// is collapsed: its child takes its place under its parent (or as the
    /// root).  Anything else is left untouched; panes are never touched.
    pub fn simplify(&mut self, starting_at: TileId, options: &SimplificationOptions)
        requires
            old(self).wf(),
        ensures
            final(self).wf(),
            Tree::simplify_post(*old(self), *final(self), starting_at, *options),
    {
        // Examine the starting tile; panes and absent tiles are never touched.
        let (is_tabs, len, first_child) = match self.tiles.get(starting_at) {
            Some(Tile::Container(c)) => {
                let cs = c.children();
                let first = if cs.len() > 0 {
                    Some(cs[0])
                } else {
                    None
                };
                (c.kind() == crate::tiles::ContainerKind::Tabs, cs.len(), first)
            },
            _ => {
                return;
            },
        };
        if len == 0 {
            let prune = if is_tabs {
                options.prune_empty_tabs
            } else {
                options.prune_empty_containers
            };
            if prune {
                proof {
                    assert(self.tiles.is_tabs(starting_at.0) == is_tabs);
                }
                self.prune_empty_cascade(starting_at, options);
            }
        } else if len == 1 {
            let child = match first_child {
                Some(c) => c,
                None => {
                    proof {
                        assert(false);
                    }
                    starting_at
                },
            };
            // Gate: with `all_panes_must_have_tabs`, a tabs container around
            // a lone pane is kept, unless it itself sits under tabs.
            let child_is_pane = match self.tiles.get(child) {
                Some(Tile::Pane(_)) => true,
                _ => false,
            };
            let parent_opt = self.find_parent_of(starting_at);
            let parent_tabs = match parent_opt {
                Some(p) => {
                    match self.tiles.get(p) {
                        Some(Tile::Container(c)) => {
                            c.kind() == crate::tiles::ContainerKind::Tabs
                        },
                        _ => false,
                    }
                },
                None => false,
            };
            let prune = if is_tabs {
                options.prune_single_child_tabs
                    && !(options.all_panes_must_have_tabs && child_is_pane && !parent_tabs)
            } else {
                options.prune_single_child_containers
            };
            proof {
                assert(self.tiles.is_tabs(starting_at.0) == is_tabs);
                assert(self.tiles.children_of(starting_at.0)[0] == child);
                assert(self.tiles.is_pane(child.0) == child_is_pane);
                if self.tiles.is_child(starting_at.0) {
                    self.tiles.lemma_parent_of(starting_at.0);
                }
                assert(self.tiles.parent_is_tabs(starting_at.0) == parent_tabs);
                assert(prune == options.spec_prunes_single(
                    is_tabs,
                    child_is_pane,
                    parent_tabs,
                ));
            }
            if prune {
                let ghost pre = *self;
                proof {
                    // The lone child occupies a child slot of the start
                    // container, so it is somebody's child and the handles
                    // are ordered along the edge.
                    let i0 = pre.tiles.idx_of(starting_at.0);
                    assert(0 <= i0 < pre.tiles.num() && pre.tiles.id_at(i0) == starting_at.0);
                    assert(pre.tiles.child_slot(i0, 0));
                    assert(pre.tiles.child_at(i0, 0) == child.0);
                    assert(pre.tiles.is_child(child.0));
                    pre.tiles.lemma_parent_of(child.0);
                }
                self.tiles.remove_child(starting_at, child);
                match parent_opt {
                    Some(p) => {
                        proof {
                            assert(p.0 < starting_at.0 < child.0);
                        }
                        self.tiles.replace_child(p, starting_at, child);
                        self.tiles.remove(starting_at);
                    },
                    None => {
                        let is_root = match self.root {
                            Some(r) => r.0 == starting_at.0,
                            None => false,
                        };
                        self.tiles.remove(starting_at);
                        if is_root {
                            self.root = Some(child);
                        }
                    },
                }
            }
        }
    }

    /// Remove the empty container `cur` from its parent and from the arena,
    /// then keep pruning upward as long as that removal leaves an empty
    /// container whose kind the policy prunes.
    fn prune_empty_cascade(&mut self, cur: TileId, options: &SimplificationOptions)
        requires
            old(self).wf(),
            old(self).tiles.is_container(cur.0),
            old(self).tiles.children_of(cur.0).len() == 0,
            options.spec_prunes_empty(old(self).tiles.is_tabs(cur.0)),
        ensures
            final(self).wf(),
            simplify_frame(old(self).tiles, final(self).tiles),
            !final(self).tiles.contains(cur.0),
            old(self).root is None ==> final(self).root is None,
            final(self).root == old(self).root || final(self).root is None,
            (old(self).root matches Some(r) && final(self).tiles.contains(r.0))
                ==> final(self).root == old(self).root,
            old(self).tiles.is_child(cur.0) ==> {
                let p = old(self).tiles.parent_of(cur.0);
                let oldpc = old(self).tiles.children_of(p);
                (oldpc.len() >= 2 || !options.spec_prunes_empty(old(self).tiles.is_tabs(p)))
                    ==> final(self).root == old(self).root
                        && final(self).tiles.contains(p)
                        && final(self).tiles.children_of(p) == oldpc.remove(
                            seq_index_of(oldpc, cur),
                        )
                        && (old(self).tiles.is_tabs(p)
                            ==> final(self).tiles.active_of(p) == (
                                if old(self).tiles.active_of(p) == Some(cur) {
                                    if final(self).tiles.children_of(p).len() > 0 {
                                        Some(final(self).tiles.children_of(p)[0])
                                    } else {
                                        None::<TileId>
                                    }
                                } else {
                                    old(self).tiles.active_of(p)
                                }
                            ))
                        && forall|x: u64| old(self).tiles.contains(x) && x != cur.0 && x != p
                            ==> final(self).tiles.contains(x)
                                && final(self).tiles.tile_of(x) == old(self).tiles.tile_of(x)
            },
            !old(self).tiles.is_child(cur.0) ==> {
                &&& (old(self).root == Some(cur) ==> final(self).root is None)
                &&& (old(self).root != Some(cur) ==> final(self).root == old(self).root)
                &&& forall|x: u64| old(self).tiles.contains(x) && x != cur.0
                    ==> final(self).tiles.contains(x)
                        && final(self).tiles.tile_of(x) == old(self).tiles.tile_of(x)
            },
        decreases cur.0,
    {
        proof {
            if old(self).tiles.is_child(cur.0) {
                old(self).tiles.lemma_parent_of(cur.0);
            }
        }
        let parent_opt = self.find_parent_of(cur);
        match parent_opt {
            None => {
                let is_root = match self.root {
                    Some(r) => r.0 == cur.0,
                    None => false,
                };
                if is_root {
                    self.root = None;
                }
                self.tiles.remove(cur);
            },
            Some(p) => {
                self.tiles.remove_child(p, cur);
                self.tiles.remove(cur);
                // Recurse only if the removal emptied the parent and the
                // policy prunes its kind.
                let (plen, ptabs) = match self.tiles.get(p) {
                    Some(Tile::Container(c)) => {
                        (c.children().len(), c.kind() == crate::tiles::ContainerKind::Tabs)
                    },
                    _ => {
                        proof {
                            assert(false);
                        }
                        (0, false)
                    },
                };
                let prune_parent = if ptabs {
                    options.prune_empty_tabs
                } else {
                    options.prune_empty_containers
                };
                if plen == 0 && prune_parent {
                    proof {
                        assert(self.tiles.is_tabs(p.0) == ptabs);
                        assert(p.0 < cur.0);
                    }
                    self.prune_empty_cascade(p, options);
                    proof {
                        // The recursion removes tiles but never brings the
                        // already-removed container back.
                        assert(!self.tiles.contains(cur.0));
                    }
                }
            },
        }
    }

}

} // verus!
