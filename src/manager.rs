use crate::peer_map::{PeerId, PeerMap, UnknownPeer};
use crate::snap::{diff, diff_spec, ItemV, Snap};
use crate::storage::{has_tick, snap_at, HistoryV, MonotonicityViolation, Storage};
use crate::wire::{DeltaBase, WireDelta};
use vstd::prelude::*;

verus! {

/// What the server knows of one peer: the last tick it acknowledged (`None`:
/// it gets full snapshots) and the last tick sent to it.
#[derive(Clone, Copy, Debug, PartialEq, Eq, Structural)]
pub struct PeerSync {
    pub acked: Option<u32>,
    pub in_flight: Option<u32>,
}

/// Why the manager could not build a delta.
#[derive(Clone, Copy, Debug, PartialEq, Eq, Structural)]
pub enum ManagerError {
    /// The peer has no slot.
    UnknownPeer,
    /// No snapshot is stored at the requested tick.
    MissingSnap,
}

/// The acknowledgement state after an ack of `tick`: it only moves forward.
pub open spec fn acked_after(acked: Option<u32>, tick: u32) -> Option<u32> {
    match acked {
        Some(a) => if tick > a { Some(tick) } else { Some(a) },
        None => Some(tick),
    }
}

/// The base a delta for a peer that acknowledged `acked` is built on: that
/// tick while it is stored, else the empty snapshot.
pub open spec fn base_for(h: HistoryV, acked: Option<u32>) -> DeltaBase {
    match acked {
        Some(a) => if has_tick(h, a) { DeltaBase::FromTick(a) } else { DeltaBase::Full },
        None => DeltaBase::Full,
    }
}

pub open spec fn base_snap(h: HistoryV, b: DeltaBase) -> Seq<ItemV> {
    match b {
        DeltaBase::FromTick(a) => snap_at(h, a),
        DeltaBase::Full => Seq::empty(),
    }
}

/// Some peer has acknowledged a tick.
pub open spec fn any_acked(peers: Map<PeerId, PeerSync>) -> bool {
    exists|p: PeerId| #[trigger] peers.contains_key(p) && peers[p].acked is Some
}

/// The oldest tick kept when the newest is `last` and at most `max_lag`
/// ticks of lag are kept.
pub open spec fn lag_floor(last: Option<u32>, max_lag: u32) -> u32 {
    match last {
        Some(l) => if l > max_lag { (l - max_lag) as u32 } else { 0 },
        None => 0,
    }
}

/// The server side: the history of snapshots and, per peer, what it has
/// acknowledged. A peer whose acknowledged tick lies more than `max_lag`
/// ticks behind the newest may lose its base and get a full snapshot.
pub struct Manager {
    storage: Storage,
    peers: PeerMap<PeerSync>,
    max_lag: u32,
}

impl Manager {
    pub closed spec fn history(&self) -> HistoryV {
        self.storage@
    }

    pub closed spec fn last_tick(&self) -> Option<u32> {
        self.storage.last_tick()
    }

    pub closed spec fn peers(&self) -> Map<PeerId, PeerSync> {
        self.peers@
    }

    pub closed spec fn max_lag(&self) -> u32 {
        self.max_lag
    }

    pub closed spec fn wf(&self) -> bool {
        self.storage.wf() && self.peers.wf()
    }

    pub fn new(max_lag: u32) -> (r: Manager)
        ensures
            r.wf(),
            r.max_lag() == max_lag,
            r.history() == HistoryV::empty(),
            r.last_tick() is None,
            r.peers() == Map::<PeerId, PeerSync>::empty(),
    {
        Manager { storage: Storage::new(), peers: PeerMap::new(), max_lag }
    }

    /// Gives a newly connected peer a fresh slot: it will get a full snapshot.
    pub fn connect(&mut self, pid: PeerId)
        requires
            old(self).wf(),
        ensures
            final(self).wf(),
            final(self).max_lag() == old(self).max_lag(),
            final(self).peers() == old(self).peers().insert(pid, PeerSync { acked: None, in_flight: None }),
            final(self).history() == old(self).history(),
            final(self).last_tick() == old(self).last_tick(),
    {
        let _ = self.peers.insert(pid, PeerSync { acked: None, in_flight: None });
    }

    /// Drops the slot of a disconnected peer.
    pub fn disconnect(&mut self, pid: PeerId) -> (r: Result<(), UnknownPeer>)
        requires
            old(self).wf(),
        ensures
            final(self).wf(),
            final(self).max_lag() == old(self).max_lag(),
            r is Ok <==> old(self).peers().contains_key(pid),
            final(self).peers() == old(self).peers().remove(pid),
            final(self).history() == old(self).history(),
            final(self).last_tick() == old(self).last_tick(),
    {
        match self.peers.remove(pid) {
            Ok(_) => Ok(()),
            Err(e) => {
                assert(self.peers@ =~= old(self).peers@.remove(pid));
                Err(e)
            },
        }
    }

    /// The state held for `pid`.
    pub fn peer(&self, pid: PeerId) -> (r: Result<PeerSync, UnknownPeer>)
        requires
            self.wf(),
        ensures
            r is Ok <==> self.peers().contains_key(pid),
            r matches Ok(s) ==> s == self.peers()[pid],
    {
        match self.peers.get(pid) {
            Some(s) => Ok(*s),
            None => Err(UnknownPeer),
        }
    }

    /// Records the snapshot of a new tick.
    pub fn insert_snap(&mut self, tick: u32, snap: Snap) -> (r: Result<(), MonotonicityViolation>)
        requires
            old(self).wf(),
            snap.wf(),
        ensures
            final(self).wf(),
            final(self).max_lag() == old(self).max_lag(),
            final(self).peers() == old(self).peers(),
            r is Err <==> (old(self).last_tick() matches Some(l) && tick <= l),
            r is Ok ==> final(self).history() == old(self).history().push((tick, snap@))
                && final(self).last_tick() == Some(tick),
            r is Err ==> final(self).history() == old(self).history() && final(self).last_tick() == old(self).last_tick(),
    {
        self.storage.insert(tick, snap)
    }

    /// The stored snapshot of `tick`, if any.
    pub fn snap(&self, tick: u32) -> (r: Option<&Snap>)
        requires
            self.wf(),
        ensures
            r is Some <==> has_tick(self.history(), tick),
            r matches Some(s) ==> s.wf() && s@ == snap_at(self.history(), tick),
    {
        self.storage.get(tick)
    }

    /// Builds the delta that brings `pid` to the snapshot of `to_tick`:
    /// against its acknowledged tick while that is stored, else against the
    /// empty snapshot. Marks `to_tick` as in flight for the peer.
    pub fn tick(&mut self, pid: PeerId, to_tick: u32) -> (r: Result<WireDelta, ManagerError>)
        requires
            old(self).wf(),
        ensures
            final(self).wf(),
            final(self).max_lag() == old(self).max_lag(),
            final(self).history() == old(self).history(),
            final(self).last_tick() == old(self).last_tick(),
            r is Err ==> final(self).peers() == old(self).peers(),
            !old(self).peers().contains_key(pid) <==> r == Err::<WireDelta, ManagerError>(ManagerError::UnknownPeer),
            old(self).peers().contains_key(pid) && !has_tick(old(self).history(), to_tick)
                <==> r == Err::<WireDelta, ManagerError>(ManagerError::MissingSnap),
            r matches Ok(wd) ==> {
                let st = old(self).peers()[pid];
                let h = old(self).history();
                &&& wd.to_tick == to_tick
                &&& wd.base == base_for(h, st.acked)
                &&& wd.delta@ == diff_spec(base_snap(h, wd.base), snap_at(h, to_tick))
                &&& final(self).peers() == old(self).peers().insert(pid, PeerSync { acked: st.acked, in_flight: Some(to_tick) })
            },
    {
        let st = match self.peers.get(pid) {
            Some(s) => *s,
            None => {
                return Err(ManagerError::UnknownPeer);
            },
        };
        let (base, delta) = {
            let cur = match self.storage.get(to_tick) {
                Some(c) => c,
                None => {
                    return Err(ManagerError::MissingSnap);
                },
            };
            let from = match st.acked {
                Some(a) => self.storage.get(a),
                None => None,
            };
            match (st.acked, from) {
                (Some(a), Some(f)) => (DeltaBase::FromTick(a), diff(f, cur)),
                _ => {
                    let empty = Snap::empty();
                    (DeltaBase::Full, diff(&empty, cur))
                },
            }
        };
        let _ = self.peers.insert(pid, PeerSync { acked: st.acked, in_flight: Some(to_tick) });
        Ok(WireDelta { base, to_tick, delta })
    }

    /// Evicts every stored snapshot that no peer can still use as a base:
    /// those older than the lowest tick acknowledged by any peer (or, while
    /// no peer has acknowledged one, all but the newest), and those more than
    /// `max_lag` ticks behind the newest.
    pub fn trim_history(&mut self)
        requires
            old(self).wf(),
        ensures
            final(self).wf(),
            final(self).peers() == old(self).peers(),
            final(self).last_tick() == old(self).last_tick(),
            final(self).max_lag() == old(self).max_lag(),
            final(self).history() == old(self).history().subrange(
                old(self).history().len() - final(self).history().len(), old(self).history().len() as int),
            forall|p: PeerId, i: int| #[trigger] old(self).peers().contains_key(p)
                && old(self).peers()[p].acked is Some
                && 0 <= i < old(self).history().len() - final(self).history().len()
                ==> (#[trigger] old(self).history()[i]).0 < old(self).peers()[p].acked->0
                    || old(self).history()[i].0 < lag_floor(old(self).last_tick(), old(self).max_lag()),
            !any_acked(old(self).peers()) ==> forall|i: int| 0 <= i < old(self).history().len() - final(self).history().len()
                ==> (#[trigger] old(self).history()[i]).0 < old(self).last_tick()->0,
            final(self).history().len() > 0 ==> final(self).history()[0].0 >= lag_floor(old(self).last_tick(), old(self).max_lag()),
            any_acked(old(self).peers()) && final(self).history().len() > 0 ==> exists|p: PeerId|
                #[trigger] old(self).peers().contains_key(p) && old(self).peers()[p].acked is Some
                && old(self).peers()[p].acked->0 <= final(self).history()[0].0,
            !any_acked(old(self).peers()) && final(self).history().len() > 0 ==> final(self).history()[0].0 >= old(self).last_tick()->0,
    {
        let keys = self.peers.keys();
        let mut min: Option<u32> = None;
        let mut i: usize = 0;
        while i < keys.len()
            invariant
                self.wf(),
                self.peers@ == old(self).peers@,
                self.storage == old(self).storage,
                self.max_lag == old(self).max_lag,
                i <= keys@.len(),
                forall|k: PeerId| keys@.contains(k) <==> self.peers@.contains_key(k),
                forall|j: int| 0 <= j < i && (#[trigger] self.peers@[keys@[j]]).acked is Some
                    ==> min is Some && min->0 <= self.peers@[keys@[j]].acked->0,
                min matches Some(m) ==> exists|p: PeerId| #[trigger] self.peers@.contains_key(p) && self.peers@[p].acked == Some(m),
                min is None ==> forall|j: int| 0 <= j < i ==> (#[trigger] self.peers@[keys@[j]]).acked is None,
            decreases keys@.len() - i,
        {
            assert(keys@.contains(keys@[i as int]));
            if let Some(st) = self.peers.get(keys[i]) {
                if let Some(a) = st.acked {
                    match min {
                        Some(m) => {
                            if a < m {
                                min = Some(a);
                            }
                        },
                        None => {
                            min = Some(a);
                        },
                    }
                }
            }
            i += 1;
        }
        proof {
            if any_acked(self.peers@) {
                let p = choose|p: PeerId| #[trigger] self.peers@.contains_key(p) && self.peers@[p].acked is Some;
                assert(keys@.contains(p));
                let j = choose|j: int| 0 <= j < keys@.len() && keys@[j] == p;
                assert(self.peers@[keys@[j]].acked is Some);
            }
        }
        let last = self.storage.last();
        let floor: u32 = match last {
            Some(l) => if l > self.max_lag { l - self.max_lag } else { 0 },
            None => 0,
        };
        let bound = match min {
            Some(m) => if m < floor { Some(floor) } else { Some(m) },
            None => last,
        };
        if let Some(b) = bound {
            self.storage.trim(b);
        }
        proof {
            assert forall|p: PeerId| #[trigger] self.peers@.contains_key(p) && self.peers@[p].acked is Some
                implies min is Some && min->0 <= self.peers@[p].acked->0 by {
                assert(keys@.contains(p));
                let j = choose|j: int| 0 <= j < keys@.len() && keys@[j] == p;
                assert(self.peers@[keys@[j]].acked is Some);
            }
            if bound is None {
                assert(old(self).storage@.len() == 0);
                assert(self.storage@ =~= old(self).storage@.subrange(0, 0));
            }
        }
    }

    /// Records that `pid` acknowledged `tick`; an ack older than the one
    /// recorded changes nothing.
    pub fn on_ack(&mut self, pid: PeerId, tick: u32) -> (r: Result<(), UnknownPeer>)
        requires
            old(self).wf(),
        ensures
            final(self).wf(),
            final(self).max_lag() == old(self).max_lag(),
            final(self).history() == old(self).history(),
            final(self).last_tick() == old(self).last_tick(),
            r is Ok <==> old(self).peers().contains_key(pid),
            r is Err ==> final(self).peers() == old(self).peers(),
            r is Ok ==> final(self).peers() == old(self).peers().insert(pid,
                PeerSync { acked: acked_after(old(self).peers()[pid].acked, tick), in_flight: old(self).peers()[pid].in_flight }),
    {
        let st = match self.peers.get(pid) {
            Some(s) => *s,
            None => {
                return Err(UnknownPeer);
            },
        };
        let acked = match st.acked {
            Some(a) => if tick > a { Some(tick) } else { Some(a) },
            None => Some(tick),
        };
        let _ = self.peers.insert(pid, PeerSync { acked, in_flight: st.in_flight });
        Ok(())
    }
}

} // verus!
