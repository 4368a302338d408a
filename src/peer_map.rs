use vstd::prelude::*;

verus! {

/// Identifies one connected peer.
#[derive(Clone, Copy, Debug, PartialEq, Eq, Structural, Hash)]
pub struct PeerId(pub u32);

/// Raised on a lookup of a peer that has no slot.
#[derive(Clone, Copy, Debug, PartialEq, Eq, Structural)]
pub struct UnknownPeer;

/// A mapping from peer identity to a slot of per-peer state.
pub struct PeerMap<T> {
    entries: Vec<(PeerId, T)>,
    model: Ghost<Map<PeerId, T>>,
    index: Ghost<Map<PeerId, int>>,
}

impl<T> PeerMap<T> {
    pub closed spec fn view(&self) -> Map<PeerId, T> {
        self.model@
    }

    /// The identities in the order the slots are kept.
    pub closed spec fn order(&self) -> Seq<PeerId> {
        self.entries@.map_values(|e: (PeerId, T)| e.0)
    }

    /// Each key of the model sits at its recorded index, and each entry
    /// is a key of the model at that index.
    pub closed spec fn wf(&self) -> bool {
        &&& self.index@.dom() == self.model@.dom()
        &&& forall|k: PeerId| #[trigger] self.model@.contains_key(k) ==> {
            &&& 0 <= self.index@[k] < self.entries@.len()
            &&& self.entries@[self.index@[k]].0 == k
            &&& self.entries@[self.index@[k]].1 == self.model@[k]
        }
        &&& forall|i: int| 0 <= i < self.entries@.len() ==> {
            &&& self.model@.contains_key((#[trigger] self.entries@[i]).0)
            &&& self.index@[self.entries@[i].0] == i
        }
    }

    pub fn new() -> (r: PeerMap<T>)
        ensures
            r.wf(),
            r@ == Map::<PeerId, T>::empty(),
    {
        PeerMap { entries: Vec::new(), model: Ghost(Map::empty()), index: Ghost(Map::empty()) }
    }

    pub fn with_capacity(cap: usize) -> (r: PeerMap<T>)
        ensures
            r.wf(),
            r@ == Map::<PeerId, T>::empty(),
    {
        PeerMap { entries: Vec::with_capacity(cap), model: Ghost(Map::empty()), index: Ghost(Map::empty()) }
    }

    pub fn len(&self) -> (r: usize)
        requires
            self.wf(),
        ensures
            r == self@.len(),
    {
        proof {
            self.lemma_len();
        }
        self.entries.len()
    }

    proof fn lemma_len(&self)
        requires
            self.wf(),
        ensures
            self.entries@.len() == self@.len(),
    {
        let keys = Set::new(|i: int| 0 <= i < self.entries@.len());
        let f = |i: int| self.entries@[i].0;
        assert(self.model@.dom() =~= keys.map(f)) by {
            assert forall|k: PeerId| self.model@.dom().contains(k) implies keys.map(f).contains(k) by {
                assert(keys.contains(self.index@[k]));
            }
        }
        vstd::set_lib::range_set_properties::<int>(0, self.entries@.len() as int);
        let r = Set::<int>::new(|i: int| 0 <= i < self.entries@.len());
        assert(keys =~= vstd::set_lib::set_int_range(0, self.entries@.len() as int));
        assert(vstd::relations::injective_on(f, keys)) by {
            assert forall|a: int, b: int| keys.contains(a) && keys.contains(b) && f(a) == f(b) implies a == b by {
                assert(self.index@[self.entries@[a].0] == a);
                assert(self.index@[self.entries@[b].0] == b);
            }
        }
        vstd::set_lib::lemma_map_size(keys, keys.map(f), f);
    }

    fn find(&self, pid: PeerId) -> (r: Option<usize>)
        requires
            self.wf(),
        ensures
            r is Some <==> self@.contains_key(pid),
            r matches Some(i) ==> i == self.index@[pid],
    {
        let mut i: usize = 0;
        while i < self.entries.len()
            invariant
                self.wf(),
                i <= self.entries@.len(),
                forall|k: int| 0 <= k < i ==> (#[trigger] self.entries@[k]).0 != pid,
            decreases self.entries@.len() - i,
        {
            if self.entries[i].0 == pid {
                return Some(i);
            }
            i += 1;
        }
        proof {
            if self@.contains_key(pid) {
                assert(self.entries@[self.index@[pid]].0 == pid);
            }
        }
        None
    }

    pub fn contains(&self, pid: PeerId) -> (r: bool)
        requires
            self.wf(),
        ensures
            r == self@.contains_key(pid),
    {
        self.find(pid).is_some()
    }

    /// The state of `pid`, if it has a slot.
    pub fn get(&self, pid: PeerId) -> (r: Option<&T>)
        requires
            self.wf(),
        ensures
            r is Some <==> self@.contains_key(pid),
            r matches Some(v) ==> *v == self@[pid],
    {
        match self.find(pid) {
            Some(i) => Some(&self.entries[i].1),
            None => None,
        }
    }

    /// Puts `value` in the slot of `pid`, returning the state it replaces.
    pub fn insert(&mut self, pid: PeerId, value: T) -> (r: Option<T>)
        requires
            old(self).wf(),
        ensures
            final(self).wf(),
            final(self)@ == old(self)@.insert(pid, value),
            r is Some <==> old(self)@.contains_key(pid),
            r matches Some(v) ==> v == old(self)@[pid],
    {
        match self.find(pid) {
            Some(i) => {
                let ghost e0 = self.entries@;
                let (_, prev) = self.entries.remove(i);
                self.entries.insert(i, (pid, value));
                assert(self.entries@ =~= e0.update(i as int, (pid, value)));
                self.model = Ghost(self.model@.insert(pid, value));
                assert forall|k: PeerId| #[trigger] self.model@.contains_key(k) implies {
                    &&& 0 <= self.index@[k] < self.entries@.len()
                    &&& self.entries@[self.index@[k]].0 == k
                    &&& self.entries@[self.index@[k]].1 == self.model@[k]
                } by {
                    if k != pid {
                        assert(self.entries@[self.index@[k]] == e0[old(self).index@[k]]);
                    }
                }
                assert(self.model@.dom() =~= old(self).model@.dom());
                Some(prev)
            },
            None => {
                let ghost n = self.entries@.len() as int;
                self.entries.push((pid, value));
                self.model = Ghost(self.model@.insert(pid, value));
                self.index = Ghost(self.index@.insert(pid, n));
                assert(self.index@.dom() =~= self.model@.dom());
                assert forall|k: PeerId| #[trigger] self.model@.contains_key(k) implies {
                    &&& 0 <= self.index@[k] < self.entries@.len()
                    &&& self.entries@[self.index@[k]].0 == k
                    &&& self.entries@[self.index@[k]].1 == self.model@[k]
                } by {
                    if k != pid {
                        assert(self.entries@[self.index@[k]] == old(self).entries@[old(self).index@[k]]);
                    }
                }
                None
            },
        }
    }

    /// Removes the slot of `pid` and returns its state; a peer without a
    /// slot is an error and changes nothing.
    pub fn remove(&mut self, pid: PeerId) -> (r: Result<T, UnknownPeer>)
        requires
            old(self).wf(),
        ensures
            final(self).wf(),
            r is Ok <==> old(self)@.contains_key(pid),
            r matches Ok(v) ==> v == old(self)@[pid] && final(self)@ == old(self)@.remove(pid),
            r is Err ==> final(self)@ == old(self)@,
    {
        match self.find(pid) {
            Some(i) => {
                let ghost e0 = self.entries@;
                let ghost idx0 = self.index@;
                let (_, v) = self.entries.remove(i);
                let ghost m = self.model@.remove(pid);
                self.model = Ghost(m);
                self.index = Ghost(Map::new(
                    |k: PeerId| m.contains_key(k),
                    |k: PeerId| if idx0[k] > i { idx0[k] - 1 } else { idx0[k] },
                ));
                assert(self.index@.dom() =~= self.model@.dom());
                assert forall|j: int| 0 <= j < self.entries@.len() implies {
                    &&& self.model@.contains_key((#[trigger] self.entries@[j]).0)
                    &&& self.index@[self.entries@[j].0] == j
                } by {
                    if j < i {
                        assert(self.entries@[j] == e0[j]);
                    } else {
                        assert(self.entries@[j] == e0[j + 1]);
                    }
                }
                Ok(v)
            },
            None => Err(UnknownPeer),
        }
    }

    /// The identities of all peers with a slot, each once.
    pub fn keys(&self) -> (r: Vec<PeerId>)
        requires
            self.wf(),
        ensures
            forall|k: PeerId| r@.contains(k) <==> self@.contains_key(k),
            forall|a: int, b: int| 0 <= a < b < r@.len() ==> r@[a] != r@[b],
    {
        let mut out: Vec<PeerId> = Vec::new();
        let mut i: usize = 0;
        while i < self.entries.len()
            invariant
                self.wf(),
                i <= self.entries@.len(),
                out@.len() == i,
                forall|k: int| 0 <= k < i ==> out@[k] == (#[trigger] self.entries@[k]).0,
            decreases self.entries@.len() - i,
        {
            out.push(self.entries[i].0);
            i += 1;
        }
        assert forall|k: PeerId| out@.contains(k) <==> self@.contains_key(k) by {
            if self@.contains_key(k) {
                assert(out@[self.index@[k]] == k);
            }
            if out@.contains(k) {
                let j = choose|j: int| 0 <= j < out@.len() && out@[j] == k;
                assert(self.entries@[j].0 == k);
            }
        }
        assert forall|a: int, b: int| 0 <= a < b < out@.len() implies out@[a] != out@[b] by {
            assert(self.index@[self.entries@[a].0] == a);
            assert(self.index@[self.entries@[b].0] == b);
        }
        out
    }

    /// Every slot, as (identity, state), each identity once.
    pub fn iter(&self) -> (r: Vec<(PeerId, &T)>)
        requires
            self.wf(),
        ensures
            r@.len() == self@.len(),
            self.order().len() == self@.len(),
            forall|i: int| 0 <= i < r@.len() ==> (#[trigger] r@[i]).0 == self.order()[i],
            forall|i: int| 0 <= i < r@.len() ==> self@.contains_key((#[trigger] r@[i]).0) && *r@[i].1 == self@[r@[i].0],
            forall|a: int, b: int| 0 <= a < b < r@.len() ==> r@[a].0 != r@[b].0,
    {
        proof {
            self.lemma_len();
        }
        let mut out: Vec<(PeerId, &T)> = Vec::new();
        let mut i: usize = 0;
        while i < self.entries.len()
            invariant
                self.wf(),
                i <= self.entries@.len(),
                out@.len() == i,
                forall|k: int| 0 <= k < i ==> (#[trigger] out@[k]).0 == self.entries@[k].0 && *out@[k].1 == self.entries@[k].1,
            decreases self.entries@.len() - i,
        {
            out.push((self.entries[i].0, &self.entries[i].1));
            i += 1;
        }
        assert forall|a: int, b: int| 0 <= a < b < out@.len() implies out@[a].0 != out@[b].0 by {
            assert(self.index@[self.entries@[a].0] == a);
            assert(self.index@[self.entries@[b].0] == b);
        }
        assert forall|k: int| 0 <= k < out@.len() implies self@.contains_key((#[trigger] out@[k]).0) && *out@[k].1 == self@[out@[k].0] by {
            assert(self.model@.contains_key(self.entries@[k].0));
            assert(self.index@[self.entries@[k].0] == k);
        }
        out
    }

    /// The states of all slots, in the order of `iter`.
    pub fn values(&self) -> (r: Vec<&T>)
        requires
            self.wf(),
        ensures
            r@.len() == self@.len(),
            forall|i: int| 0 <= i < r@.len() ==> self@.contains_key(self.order()[i]) && *(#[trigger] r@[i]) == self@[self.order()[i]],
    {
        let all = self.iter();
        let mut out: Vec<&T> = Vec::new();
        let mut i: usize = 0;
        while i < all.len()
            invariant
                i <= all@.len(),
                out@.len() == i,
                all@.len() == self@.len(),
                forall|k: int| 0 <= k < all@.len() ==> (#[trigger] all@[k]).0 == self.order()[k],
                forall|k: int| 0 <= k < all@.len() ==> self@.contains_key((#[trigger] all@[k]).0) && *all@[k].1 == self@[all@[k].0],
                forall|k: int| 0 <= k < i ==> *(#[trigger] out@[k]) == *all@[k].1,
            decreases all@.len() - i,
        {
            out.push(all[i].1);
            i += 1;
        }
        assert forall|i: int| 0 <= i < out@.len() implies self@.contains_key(self.order()[i]) && *(#[trigger] out@[i]) == self@[self.order()[i]] by {
            assert(all@[i].0 == self.order()[i]);
        }
        out
    }

    /// Empties the map, handing out every slot, each identity once.
    pub fn drain(&mut self) -> (r: Vec<(PeerId, T)>)
        requires
            old(self).wf(),
        ensures
            final(self).wf(),
            final(self)@ == Map::<PeerId, T>::empty(),
            r@.len() == old(self)@.len(),
            forall|i: int| 0 <= i < r@.len() ==> old(self)@.contains_key((#[trigger] r@[i]).0) && r@[i].1 == old(self)@[r@[i].0],
            forall|a: int, b: int| 0 <= a < b < r@.len() ==> r@[a].0 != r@[b].0,
    {
        proof {
            self.lemma_len();
        }
        let ghost m0 = self.model@;
        let ghost i0 = self.index@;
        let ghost e0 = self.entries@;
        let mut out: Vec<(PeerId, T)> = Vec::new();
        core::mem::swap(&mut self.entries, &mut out);
        self.model = Ghost(Map::empty());
        self.index = Ghost(Map::empty());
        assert(self.index@.dom() =~= self.model@.dom());
        assert forall|a: int, b: int| 0 <= a < b < out@.len() implies out@[a].0 != out@[b].0 by {
            assert(i0[e0[a].0] == a);
            assert(i0[e0[b].0] == b);
        }
        assert forall|k: int| 0 <= k < out@.len() implies m0.contains_key((#[trigger] out@[k]).0) && out@[k].1 == m0[out@[k].0] by {
            assert(m0.contains_key(e0[k].0));
            assert(i0[e0[k].0] == k);
        }
        out
    }
}

} // verus!
