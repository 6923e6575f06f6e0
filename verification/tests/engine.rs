use space_time_id::contain::Containment;
use space_time_id::id::SpaceTimeId;
use space_time_id::range::DimensionRange as DR;
use space_time_id::set::SpaceTimeIdSet;
use space_time_id::storage::Storage;

fn tile(
    z: u16,
    f: DR<i64>,
    x: DR<u64>,
    y: DR<u64>,
    i: u32,
    t: DR<u32>,
) -> SpaceTimeId {
    SpaceTimeId::new(z, f, x, y, i, t).unwrap()
}

#[test]
fn insert_into_empty_optimizes() {
    let raw = tile(2, DR::Any, DR::LimitRange(0, 3), DR::LimitRange(0, 1), 4, DR::LimitRange(0, 1));
    let mut s = SpaceTimeIdSet::new();
    assert!(s.is_empty());
    s.insert(raw);
    assert_eq!(s.len(), 1);
    let e = s.element(0);
    assert_eq!(e.z, 1);
    assert_eq!(e.x, DR::LimitRange(0, 1));
    assert_eq!(e.y, DR::LimitRange(0, 0));
    assert_eq!(e.f, DR::Any);
    assert_eq!(e.i, 2);
    assert_eq!(e.t, DR::LimitRange(0, 0));
}

#[test]
fn adjacency_merge_on_x() {
    let a = tile(1, DR::Single(0), DR::Single(0), DR::Single(0), 1, DR::Any);
    let b = tile(1, DR::Single(0), DR::Single(1), DR::Single(0), 1, DR::Any);
    let mut s = SpaceTimeIdSet::new();
    s.insert(a);
    s.insert(b);
    assert_eq!(s.len(), 1);
    let e = s.element(0);
    assert_eq!(e.x, DR::LimitRange(0, 1));
    assert_eq!(e.y, DR::Single(0));
    assert_eq!(e.f, DR::Single(0));
    assert_eq!(e.z, 1);
    assert_eq!(e.i, 1);
    assert_eq!(e.t, DR::Any);
}

#[test]
fn full_containment_dedup() {
    let a = tile(3, DR::Single(0), DR::LimitRange(0, 3), DR::Single(0), 1, DR::Any);
    let b = tile(3, DR::Single(0), DR::LimitRange(1, 2), DR::Single(0), 1, DR::Any);
    let mut s = SpaceTimeIdSet::new();
    s.insert(a);
    s.insert(b);
    assert_eq!(s.len(), 1);
    assert_eq!(s.element(0), a);
}

#[test]
fn partial_overlap_split() {
    let a = tile(3, DR::Single(0), DR::LimitRange(0, 3), DR::Single(0), 1, DR::Any);
    let b = tile(3, DR::Single(0), DR::LimitRange(2, 5), DR::Single(0), 1, DR::Any);
    let mut s = SpaceTimeIdSet::new();
    s.insert(a);
    s.insert(b);
    assert_eq!(s.len(), 1);
    let e = s.element(0);
    assert_eq!(e.x, DR::LimitRange(0, 5));
    assert_eq!(e.y, DR::Single(0));
    assert_eq!(e.f, DR::Single(0));
    assert_eq!(e.z, 3);
}

#[test]
fn insert_is_idempotent() {
    let a = tile(1, DR::Single(0), DR::Single(0), DR::Single(0), 1, DR::Any);
    let mut s = SpaceTimeIdSet::new();
    s.insert(a);
    let first = s.element(0);
    s.insert(a);
    assert_eq!(s.len(), 1);
    assert_eq!(s.element(0), first);
}

#[test]
fn containment_full_and_disjoint() {
    let a = tile(1, DR::Any, DR::Single(0), DR::Any, 1, DR::Any);
    let b = tile(2, DR::Single(-1), DR::Single(1), DR::Single(2), 1, DR::Single(0));
    assert_eq!(a.containment_relation(&b), Containment::Full);
    let c = tile(1, DR::Any, DR::Single(1), DR::Any, 1, DR::Any);
    assert_eq!(a.containment_relation(&c), Containment::Disjoint);
    assert_eq!(a.containment_relation(&a), Containment::Full);
}

#[test]
fn containment_partial_overlap_value() {
    let a = tile(3, DR::Single(0), DR::LimitRange(0, 3), DR::Single(0), 1, DR::Any);
    let b = tile(3, DR::Single(0), DR::LimitRange(2, 5), DR::Single(0), 1, DR::Any);
    match a.containment_relation(&b) {
        Containment::Partial(o) => {
            assert_eq!(o.z, 3);
            assert_eq!(o.x, DR::LimitRange(2, 3));
            assert_eq!(o.y, DR::Single(0));
            assert_eq!(o.f, DR::Single(0));
            assert_eq!(o.i, 1);
            assert_eq!(o.t, DR::Any);
        }
        other => panic!("expected a partial overlap, got {:?}", other),
    }
}

#[test]
fn containment_across_time_resolutions() {
    let a = tile(0, DR::Any, DR::Any, DR::Any, 2, DR::Single(0));
    let b = tile(0, DR::Any, DR::Any, DR::Any, 3, DR::Single(0));
    assert_eq!(a.containment_relation(&b), Containment::Full);
    match b.containment_relation(&a) {
        Containment::Partial(o) => {
            assert_eq!(o.i, 6);
            assert_eq!(o.t, DR::BeforeUnLimitRange(1));
        }
        other => panic!("expected a partial overlap, got {:?}", other),
    }
}

#[test]
fn union_of_disjoint_tiles() {
    let a = tile(2, DR::Single(0), DR::Single(0), DR::Single(0), 1, DR::Any);
    let b = tile(2, DR::Single(0), DR::Single(2), DR::Single(0), 1, DR::Any);
    let sa = SpaceTimeIdSet::from_id(a);
    let sb = SpaceTimeIdSet::from_id(b);
    let u = sa.union(&sb);
    assert_eq!(u.len(), 2);
    let v = sb.union(&sa);
    assert_eq!(v.len(), 2);
}

#[test]
fn intersect_picks_overlap() {
    let a = tile(3, DR::Single(0), DR::LimitRange(0, 3), DR::Single(0), 1, DR::Any);
    let b = tile(3, DR::Single(0), DR::LimitRange(2, 5), DR::Single(0), 1, DR::Any);
    let sa = SpaceTimeIdSet::from_id(a);
    let sb = SpaceTimeIdSet::from_id(b);
    let m = sa.intersect(&sb);
    assert_eq!(m.len(), 1);
    assert_eq!(m.element(0).x, DR::LimitRange(2, 3));
    let d = tile(3, DR::Single(0), DR::LimitRange(6, 7), DR::Single(0), 1, DR::Any);
    let sd = SpaceTimeIdSet::from_id(d);
    assert!(sa.intersect(&sd).is_empty());
}

#[test]
fn complement_of_empty_is_universe() {
    let e = SpaceTimeIdSet::new();
    let c = e.complement();
    assert_eq!(c.len(), 1);
    assert_eq!(c.element(0), SpaceTimeIdSet::universe());
}

#[test]
fn round_trip_through_algebra() {
    let a = tile(1, DR::Single(0), DR::Single(0), DR::Single(0), 1, DR::Any);
    let s = SpaceTimeIdSet::from_id(a);
    let c = s.complement();
    assert!(!c.is_empty());
    let everything = s.union(&c);
    assert!(everything.complement().is_empty());
    assert!(s.intersect(&c).is_empty());
}

#[test]
fn storage_starts_empty() {
    let s = Storage::new();
    assert!(s.is_ok());
}
