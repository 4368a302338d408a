use snapshot::manager::{Manager, ManagerError, PeerSync};
use snapshot::peer_map::{PeerId, PeerMap, UnknownPeer};
use snapshot::receiver::{DeltaReceiver, ReceiveError};
use snapshot::snap::{apply, Delta, Item, ItemKey, Snap};
use snapshot::storage::{MonotonicityViolation, Storage};
use snapshot::wire::{DeltaBase, WireDelta};

fn item(t: u16, id: u16, data: &[i32]) -> Item {
    Item::new(ItemKey::new(t, id), data.to_vec())
}

fn snap(items: Vec<Item>) -> Snap {
    Snap::from_items(items).unwrap()
}

fn contents(s: &Snap) -> Vec<(u16, u16, Vec<i32>)> {
    let mut out = Vec::new();
    for i in 0..s.len() {
        let it = s.item(i);
        out.push((it.key.type_id, it.key.id, it.data.clone()));
    }
    out
}

fn tick_snap(n: i32) -> Snap {
    snap(vec![item(1, 1, &[n, n * 2])])
}

#[test]
fn storage_rejects_non_increasing_tick_and_trims_oldest() {
    let mut s = Storage::new();
    assert_eq!(s.insert(1, tick_snap(1)), Ok(()));
    assert_eq!(s.insert(2, tick_snap(2)), Ok(()));
    assert_eq!(s.insert(3, tick_snap(3)), Ok(()));
    assert_eq!(s.insert(2, tick_snap(9)), Err(MonotonicityViolation));
    assert_eq!(s.insert(3, tick_snap(9)), Err(MonotonicityViolation));
    s.trim(2);
    assert!(s.get(1).is_none());
    assert_eq!(contents(s.get(2).unwrap()), contents(&tick_snap(2)));
    assert_eq!(contents(s.get(3).unwrap()), contents(&tick_snap(3)));
    assert_eq!(s.len(), 2);
    assert_eq!(s.last(), Some(3));
}

#[test]
fn storage_refuses_tick_below_trimmed_ones() {
    let mut s = Storage::new();
    assert_eq!(s.insert(5, tick_snap(5)), Ok(()));
    s.trim(10);
    assert_eq!(s.len(), 0);
    assert_eq!(s.insert(4, tick_snap(4)), Err(MonotonicityViolation));
    assert_eq!(s.insert(6, tick_snap(6)), Ok(()));
}

fn full(to_tick: u32, items: Vec<Item>) -> WireDelta {
    WireDelta { base: DeltaBase::Full, to_tick, delta: Delta { added: items, removed: vec![], updated: vec![] } }
}

#[test]
fn receiver_awaiting_full_requires_resync() {
    let mut r = DeltaReceiver::new();
    let wd = WireDelta {
        base: DeltaBase::FromTick(3),
        to_tick: 4,
        delta: Delta { added: vec![], removed: vec![], updated: vec![] },
    };
    assert_eq!(r.on_delta(&wd).unwrap_err(), ReceiveError::ResyncRequired);
    assert!(!r.is_synced());
    let got = r.on_delta(&full(4, vec![item(1, 1, &[5, 5])])).unwrap();
    assert!(r.is_synced());
    assert_eq!(r.base_tick(), Some(4));
    assert_eq!(got.tick, 4);
    assert_eq!(got.base_tick, None);
    assert_eq!(contents(&got.snap), vec![(1, 1, vec![5, 5])]);
}

#[test]
fn receiver_applies_delta_on_matching_base() {
    let mut r = DeltaReceiver::new();
    r.on_delta(&full(1, vec![item(1, 1, &[5, 5])])).unwrap();
    let wd = WireDelta {
        base: DeltaBase::FromTick(1),
        to_tick: 2,
        delta: Delta { added: vec![item(2, 1, &[1])], removed: vec![], updated: vec![item(1, 1, &[0, 4])] },
    };
    let got = r.on_delta(&wd).unwrap();
    assert_eq!(got.base_tick, Some(1));
    assert_eq!(got.tick, 2);
    assert_eq!(contents(&got.snap), vec![(1, 1, vec![5, 9]), (2, 1, vec![1])]);
    assert_eq!(r.base_tick(), Some(2));
}

#[test]
fn receiver_rejects_mismatched_or_inconsistent_delta() {
    let mut r = DeltaReceiver::new();
    r.on_delta(&full(1, vec![item(1, 1, &[5, 5])])).unwrap();
    let stale = WireDelta {
        base: DeltaBase::FromTick(0),
        to_tick: 2,
        delta: Delta { added: vec![], removed: vec![], updated: vec![] },
    };
    assert_eq!(r.on_delta(&stale).unwrap_err(), ReceiveError::ResyncRequired);
    let bad = WireDelta {
        base: DeltaBase::FromTick(1),
        to_tick: 2,
        delta: Delta { added: vec![], removed: vec![ItemKey::new(7, 7)], updated: vec![] },
    };
    assert_eq!(r.on_delta(&bad).unwrap_err(), ReceiveError::ResyncRequired);
    assert_eq!(r.base_tick(), Some(1));
}

#[test]
fn receiver_reports_inconsistent_full_snapshot() {
    let mut r = DeltaReceiver::new();
    let wd = WireDelta {
        base: DeltaBase::Full,
        to_tick: 1,
        delta: Delta { added: vec![], removed: vec![ItemKey::new(1, 1)], updated: vec![] },
    };
    assert_eq!(r.on_delta(&wd).unwrap_err(), ReceiveError::InconsistentDelta);
    assert!(!r.is_synced());
}

#[test]
fn peer_map_lookup_is_fallible() {
    let mut m: PeerMap<u32> = PeerMap::with_capacity(4);
    assert_eq!(m.insert(PeerId(1), 10), None);
    assert_eq!(m.insert(PeerId(2), 20), None);
    assert_eq!(m.insert(PeerId(1), 11), Some(10));
    assert_eq!(m.len(), 2);
    assert_eq!(m.get(PeerId(1)), Some(&11));
    assert_eq!(m.get(PeerId(3)), None);
    assert!(m.contains(PeerId(2)));
    let mut ks = m.keys();
    ks.sort_by_key(|p| p.0);
    assert_eq!(ks, vec![PeerId(1), PeerId(2)]);
    assert_eq!(m.remove(PeerId(3)), Err(UnknownPeer));
    assert_eq!(m.remove(PeerId(1)), Ok(11));
    assert_eq!(m.get(PeerId(1)), None);
    assert_eq!(m.get(PeerId(2)), Some(&20));
    assert_eq!(m.len(), 1);
    let empty: PeerMap<u32> = PeerMap::new();
    assert_eq!(empty.len(), 0);
}

#[test]
fn manager_sends_full_then_incremental_deltas() {
    let p = PeerId(7);
    let mut m = Manager::new(100);
    m.connect(p);
    assert_eq!(m.insert_snap(1, snap(vec![item(1, 1, &[5, 5])])), Ok(()));
    let wd = m.tick(p, 1).unwrap();
    assert_eq!(wd.base, DeltaBase::Full);
    assert_eq!(wd.to_tick, 1);
    assert_eq!(wd.delta.added.len(), 1);
    assert_eq!(m.peer(p).unwrap(), PeerSync { acked: None, in_flight: Some(1) });

    let mut rx = DeltaReceiver::new();
    rx.on_delta(&wd).unwrap();
    assert_eq!(m.on_ack(p, 1), Ok(()));

    assert_eq!(m.insert_snap(2, snap(vec![item(1, 1, &[5, 9]), item(2, 1, &[1])])), Ok(()));
    let wd = m.tick(p, 2).unwrap();
    assert_eq!(wd.base, DeltaBase::FromTick(1));
    assert_eq!(wd.delta.updated.len(), 1);
    let got = rx.on_delta(&wd).unwrap();
    assert_eq!(contents(&got.snap), vec![(1, 1, vec![5, 9]), (2, 1, vec![1])]);
}

#[test]
fn manager_ignores_older_acks() {
    let p = PeerId(1);
    let mut m = Manager::new(100);
    m.connect(p);
    m.on_ack(p, 5).unwrap();
    m.on_ack(p, 3).unwrap();
    assert_eq!(m.peer(p).unwrap().acked, Some(5));
    m.on_ack(p, 6).unwrap();
    assert_eq!(m.peer(p).unwrap().acked, Some(6));
}

#[test]
fn manager_reports_unknown_peer_and_missing_snap() {
    let mut m = Manager::new(100);
    assert_eq!(m.tick(PeerId(1), 1).unwrap_err(), ManagerError::UnknownPeer);
    assert_eq!(m.on_ack(PeerId(1), 1), Err(UnknownPeer));
    assert_eq!(m.disconnect(PeerId(1)), Err(UnknownPeer));
    assert!(m.peer(PeerId(1)).is_err());
    m.connect(PeerId(1));
    assert_eq!(m.tick(PeerId(1), 1).unwrap_err(), ManagerError::MissingSnap);
    assert_eq!(m.disconnect(PeerId(1)), Ok(()));
    assert_eq!(m.tick(PeerId(1), 1).unwrap_err(), ManagerError::UnknownPeer);
}

#[test]
fn manager_rejects_non_increasing_snapshot_tick() {
    let mut m = Manager::new(100);
    assert_eq!(m.insert_snap(2, tick_snap(2)), Ok(()));
    assert_eq!(m.insert_snap(2, tick_snap(3)), Err(MonotonicityViolation));
}

#[test]
fn manager_trim_keeps_acknowledged_ticks() {
    let (a, b) = (PeerId(1), PeerId(2));
    let mut m = Manager::new(100);
    m.connect(a);
    m.connect(b);
    for t in 1..=5u32 {
        m.insert_snap(t, tick_snap(t as i32)).unwrap();
    }
    m.on_ack(a, 4).unwrap();
    m.on_ack(b, 2).unwrap();
    m.trim_history();
    assert!(m.snap(1).is_none());
    assert!(m.snap(2).is_some());
    assert!(m.snap(5).is_some());
    let wd = m.tick(b, 5).unwrap();
    assert_eq!(wd.base, DeltaBase::FromTick(2));
    let r = apply(m.snap(2).unwrap(), &wd.delta).unwrap();
    assert_eq!(contents(&r), contents(&tick_snap(5)));
}

#[test]
fn manager_falls_back_to_full_when_base_evicted() {
    let p = PeerId(3);
    let mut m = Manager::new(100);
    m.connect(p);
    for t in 1..=3u32 {
        m.insert_snap(t, tick_snap(t as i32)).unwrap();
    }
    m.trim_history();
    assert!(m.snap(2).is_none());
    assert!(m.snap(3).is_some());
    m.on_ack(p, 1).unwrap();
    let wd = m.tick(p, 3).unwrap();
    assert_eq!(wd.base, DeltaBase::Full);
    let r = apply(&Snap::empty(), &wd.delta).unwrap();
    assert_eq!(contents(&r), contents(&tick_snap(3)));
}

#[test]
fn manager_trim_drops_bases_beyond_max_lag() {
    let (a, b) = (PeerId(1), PeerId(2));
    let mut m = Manager::new(2);
    m.connect(a);
    m.connect(b);
    for t in 1..=6u32 {
        m.insert_snap(t, tick_snap(t as i32)).unwrap();
    }
    m.on_ack(a, 5).unwrap();
    m.on_ack(b, 1).unwrap();
    m.trim_history();
    assert!(m.snap(3).is_none());
    assert!(m.snap(4).is_some());
    assert!(m.snap(5).is_some());
    assert!(m.snap(6).is_some());
    assert_eq!(m.tick(b, 6).unwrap().base, DeltaBase::Full);
    assert_eq!(m.tick(a, 6).unwrap().base, DeltaBase::FromTick(5));
}

#[test]
fn peer_map_iter_values_and_drain() {
    let mut m: PeerMap<u32> = PeerMap::new();
    m.insert(PeerId(4), 40);
    m.insert(PeerId(2), 20);
    let mut pairs: Vec<(u32, u32)> = m.iter().into_iter().map(|(p, v)| (p.0, *v)).collect();
    pairs.sort();
    assert_eq!(pairs, vec![(2, 20), (4, 40)]);
    let mut vals: Vec<u32> = m.values().into_iter().copied().collect();
    vals.sort();
    assert_eq!(vals, vec![20, 40]);
    let mut drained: Vec<(u32, u32)> = m.drain().into_iter().map(|(p, v)| (p.0, v)).collect();
    drained.sort();
    assert_eq!(drained, vec![(2, 20), (4, 40)]);
    assert_eq!(m.len(), 0);
    assert_eq!(m.get(PeerId(4)), None);
}
