use vstd::prelude::*;
use crate::panel::MockPanel;
use crate::panel::Rect;
use crate::tiles::TileId;

verus! {

/// Out-of-tree state of one detached panel: its owned content, whether its
/// floating window is visible, the window's last known geometry, and the
/// container it was last attached to (for smart redocking).
#[derive(Debug, Clone)]
pub struct FloatingPanelState {
    pub panel: MockPanel,
    pub is_open: bool,
    pub rect: Option<Rect>,
    pub last_parent_id: Option<TileId>,
}

impl FloatingPanelState {
    /// A floating record over an owned panel.
    pub fn new(
        panel: MockPanel,
        is_open: bool,
        rect: Option<Rect>,
        last_parent_id: Option<TileId>,
    ) -> (r: Self)
        ensures
            r == (FloatingPanelState { panel, is_open, rect, last_parent_id }),
    {
        FloatingPanelState { panel, is_open, rect, last_parent_id }
    }
}

/// One slot of the registry: a floating record under its panel's identity.
#[derive(Debug, Clone)]
pub struct FloatingEntry {
    pub key: u32,
    pub state: FloatingPanelState,
}

/// The floating registry: floating records keyed by panel identity.  A
/// record exists exactly for the panels not currently embedded in the tree.
#[derive(Debug, Clone)]
pub struct FloatingPanels {
    pub entries: Vec<FloatingEntry>,
}

impl FloatingPanels {
    pub open spec fn num(self) -> int {
        self.entries@.len() as int
    }

    pub open spec fn key_at(self, i: int) -> u32 {
        self.entries@[i].key
    }

    pub open spec fn state_at(self, i: int) -> FloatingPanelState {
        self.entries@[i].state
    }

    pub open spec fn contains_key(self, k: u32) -> bool {
        exists|i: int| 0 <= i < self.num() && self.key_at(i) == k
    }

    pub open spec fn idx_of(self, k: u32) -> int {
        choose|i: int| 0 <= i < self.num() && self.key_at(i) == k
    }

    pub open spec fn state_of(self, k: u32) -> FloatingPanelState {
        self.state_at(self.idx_of(k))
    }

    /// Panel identities never repeat in the registry.
    pub open spec fn wf(self) -> bool {
        forall|i: int, j: int| #![trigger self.key_at(i), self.key_at(j)]
            0 <= i < j < self.num() ==> self.key_at(i) != self.key_at(j)
    }

    pub proof fn lemma_idx_of(self, i: int)
        requires
            self.wf(),
            0 <= i < self.num(),
        ensures
            self.contains_key(self.key_at(i)),
            self.idx_of(self.key_at(i)) == i,
    {
        assert(self.contains_key(self.key_at(i)));
        let j = self.idx_of(self.key_at(i));
        if i < j {
            assert(self.key_at(i) != self.key_at(j));
        } else if j < i {
            assert(self.key_at(j) != self.key_at(i));
        }
    }

    /// An empty registry.
    pub fn new() -> (r: FloatingPanels)
        ensures
            r.wf(),
            r.num() == 0,
            forall|k: u32| !r.contains_key(k),
    {
        FloatingPanels { entries: Vec::new() }
    }

    fn find_index(&self, k: u32) -> (r: Option<usize>)
        ensures
            match r {
                Some(i) => 0 <= i < self.num() && self.key_at(i as int) == k,
                None => !self.contains_key(k),
            },
    {
        let n = self.entries.len();
        let mut i: usize = 0;
        while i < n
            invariant
                n == self.num(),
                0 <= i <= n,
                forall|j: int| 0 <= j < i ==> self.key_at(j) != k,
            decreases n - i,
        {
            if self.entries[i].key == k {
                return Some(i);
            }
            i = i + 1;
        }
        None
    }

    /// Whether a floating record exists for panel identity `k`.
    pub fn contains(&self, k: u32) -> (r: bool)
        ensures
            r == self.contains_key(k),
    {
        match self.find_index(k) {
            Some(_) => true,
            None => false,
        }
    }

    /// The floating record of panel identity `k`, if any.
    pub fn get(&self, k: u32) -> (r: Option<&FloatingPanelState>)
        requires
            self.wf(),
        ensures
            match r {
                Some(s) => self.contains_key(k) && *s == self.state_of(k),
                None => !self.contains_key(k),
            },
            r is Some <==> self.contains_key(k),
    {
        match self.find_index(k) {
            Some(i) => {
                proof {
                    self.lemma_idx_of(i as int);
                }
                Some(&self.entries[i].state)
            },
            None => None,
        }
    }

    /// Store `state` under panel identity `k`, replacing any earlier record.
    pub fn insert(&mut self, k: u32, state: FloatingPanelState)
        requires
            old(self).wf(),
        ensures
            final(self).wf(),
            final(self).contains_key(k),
            final(self).state_of(k) == state,
            forall|x: u32| final(self).contains_key(x) <==> (old(self).contains_key(x) || x == k),
            forall|x: u32| old(self).contains_key(x) && x != k
                ==> final(self).state_of(x) == old(self).state_of(x),
    {
        let found = self.find_index(k);
        match found {
            Some(i) => {
                proof {
                    self.lemma_idx_of(i as int);
                }
                let e = &mut self.entries[i];
                e.state = state;
                proof {
                    let pre = *old(self);
                    let i0 = i as int;
                    assert(self.entries@[i0].key == pre.entries@[i0].key);
                    assert forall|j: int| 0 <= j < pre.num()
                        implies self.key_at(j) == pre.key_at(j) by {
                        if j != i0 {
                            assert(self.entries@[j] == pre.entries@[j]);
                        }
                    }
                    assert(self.wf()) by {
                        assert forall|a: int, b: int|
                            #![trigger self.key_at(a), self.key_at(b)]
                            0 <= a < b < self.num()
                            implies self.key_at(a) != self.key_at(b) by {
                            assert(self.key_at(a) == pre.key_at(a));
                            assert(self.key_at(b) == pre.key_at(b));
                            assert(pre.key_at(a) != pre.key_at(b));
                        }
                    }
                    self.lemma_idx_of(i0);
                    assert forall|x: u32| pre.contains_key(x) implies self.contains_key(x) by {
                        let w = pre.idx_of(x);
                        assert(self.key_at(w) == x);
                    }
                    assert forall|x: u32| self.contains_key(x) implies pre.contains_key(x) by {
                        let w = self.idx_of(x);
                        assert(pre.key_at(w) == x);
                    }
                    assert forall|x: u32| pre.contains_key(x) && x != k implies
                        self.state_of(x) == pre.state_of(x) by {
                        let w = pre.idx_of(x);
                        assert(w != i0);
                        assert(self.entries@[w] == pre.entries@[w]);
                        pre.lemma_idx_of(w);
                        self.lemma_idx_of(w);
                    }
                }
            },
            None => {
                self.entries.push(FloatingEntry { key: k, state });
                proof {
                    let pre = *old(self);
                    let n = pre.num();
                    assert forall|i: int, j: int|
                        #![trigger self.key_at(i), self.key_at(j)]
                        0 <= i < j < self.num() implies self.key_at(i) != self.key_at(j) by {
                        if j < n {
                            assert(self.entries@[i] == pre.entries@[i]);
                            assert(self.entries@[j] == pre.entries@[j]);
                            assert(pre.key_at(i) != pre.key_at(j));
                        } else {
                            assert(self.entries@[i] == pre.entries@[i]);
                            assert(pre.key_at(i) == self.key_at(i));
                            assert(!pre.contains_key(k));
                        }
                    }
                    assert(self.wf());
                    self.lemma_idx_of(n);
                    assert forall|x: u32| pre.contains_key(x) implies
                        self.contains_key(x) && self.state_of(x) == pre.state_of(x) by {
                        let w = pre.idx_of(x);
                        assert(self.entries@[w] == pre.entries@[w]);
                        pre.lemma_idx_of(w);
                        self.lemma_idx_of(w);
                    }
                    assert forall|x: u32| self.contains_key(x) implies
                        (pre.contains_key(x) || x == k) by {
                        let w = self.idx_of(x);
                        if w < n {
                            assert(pre.key_at(w) == x);
                        }
                    }
                }
            },
        }
    }

    /// Remove and return the floating record of panel identity `k`.
    pub fn remove(&mut self, k: u32) -> (r: Option<FloatingPanelState>)
        requires
            old(self).wf(),
        ensures
            final(self).wf(),
            match r {
                Some(s) => old(self).contains_key(k) && s == old(self).state_of(k),
                None => !old(self).contains_key(k) && *final(self) == *old(self),
            },
            !final(self).contains_key(k),
            forall|x: u32| final(self).contains_key(x) <==> (old(self).contains_key(x) && x != k),
            forall|x: u32| old(self).contains_key(x) && x != k
                ==> final(self).state_of(x) == old(self).state_of(x),
    {
        let found = self.find_index(k);
        match found {
            Some(i) => {
                proof {
                    self.lemma_idx_of(i as int);
                }
                let e = self.entries.remove(i);
                proof {
                    let pre = *old(self);
                    let k0 = i as int;
                    let n = pre.num();
                    pre.entries@.remove_ensures(k0);
                    let f = |j: int| if j < k0 { j } else { j + 1 };
                    assert forall|j: int| 0 <= j < self.num()
                        implies self.entries@[j] == pre.entries@[f(j)] && f(j) != k0 by {}
                    assert forall|i2: int, j: int|
                        #![trigger self.key_at(i2), self.key_at(j)]
                        0 <= i2 < j < self.num() implies self.key_at(i2) != self.key_at(j) by {
                        assert(self.entries@[i2] == pre.entries@[f(i2)]);
                        assert(self.entries@[j] == pre.entries@[f(j)]);
                        assert(pre.key_at(f(i2)) != pre.key_at(f(j)));
                    }
                    assert(self.wf());
                    assert forall|x: u32| self.contains_key(x) implies
                        (pre.contains_key(x) && x != k) by {
                        let w = self.idx_of(x);
                        assert(self.entries@[w] == pre.entries@[f(w)]);
                        assert(pre.key_at(f(w)) == x);
                        if x == k {
                            assert(pre.key_at(k0) == x);
                            assert(pre.key_at(f(w)) != pre.key_at(k0));
                        }
                    }
                    assert forall|x: u32| pre.contains_key(x) && x != k implies
                        self.contains_key(x) && self.state_of(x) == pre.state_of(x) by {
                        let w = pre.idx_of(x);
                        assert(w != k0);
                        let j = if w < k0 { w } else { w - 1 };
                        assert(self.entries@[j] == pre.entries@[f(j)]);
                        assert(f(j) == w);
                        assert(self.key_at(j) == x);
                        self.lemma_idx_of(j);
                        pre.lemma_idx_of(w);
                    }
                }
                Some(e.state)
            },
            None => None,
        }
    }
}

} // verus!
