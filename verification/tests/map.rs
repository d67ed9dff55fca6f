//! Tests of the region map: the claim scenarios, the error cases, the
//! claim/free round trip, and the gap computation.

use rezos::map::{MemoryMapperError, TableMemoryMapper};

#[test]
fn claim_overlap_scenario() {
    // Manage (0, 1_000_000); claim (100, 200), (300, 400), then the
    // overlapping (150, 250).
    let mut m = TableMemoryMapper::manage((0, 1_000_000));
    let _a = m.claim((100, 200)).unwrap();
    let _b = m.claim((300, 400)).unwrap();
    match m.claim((150, 250)) {
        Err(MemoryMapperError::AlreadyOccupiedBy(r)) => assert_eq!(r, (100, 200)),
        _ => panic!("overlapping claim must name its occupant"),
    }
    // Gaps: (0, 100), (200, 300), (400, 1_000_000).
    let mut g = m.gaps();
    assert_eq!(g.next(), Some((0, 100)));
    assert_eq!(g.next(), Some((200, 300)));
    assert_eq!(g.next(), Some((400, 1_000_000)));
    assert_eq!(g.next(), None);
}

#[test]
fn claim_whole_range() {
    // Touching the managed endpoints is allowed, and leaves no gap.
    let mut m = TableMemoryMapper::manage((0, 1_000_000));
    let _a = m.claim((0, 1_000_000)).unwrap();
    let mut g = m.gaps();
    assert_eq!(g.next(), None);
}

#[test]
fn claim_out_of_bound() {
    let mut m = TableMemoryMapper::manage((1000, 2000));
    match m.claim((500, 1500)) {
        Err(MemoryMapperError::OutOfBound(d)) => assert_eq!(d, (1000, 2000)),
        _ => panic!("claim below the managed range must be out of bound"),
    }
    match m.claim((1500, 2500)) {
        Err(MemoryMapperError::OutOfBound(d)) => assert_eq!(d, (1000, 2000)),
        _ => panic!("claim above the managed range must be out of bound"),
    }
    assert_eq!(m.dimensions(), (1000, 2000));
}

#[test]
fn touching_claims_do_not_overlap() {
    let mut m = TableMemoryMapper::manage((0, 1000));
    let _a = m.claim((100, 200)).unwrap();
    // Sharing only an endpoint is not an intersection.
    assert!(m.claim((200, 300)).is_ok());
    assert!(m.claim((50, 100)).is_ok());
}

#[test]
fn claim_free_round_trip() {
    let mut m = TableMemoryMapper::manage((0, 1000));
    let _a = m.claim((10, 20)).unwrap();
    let before: Vec<(usize, usize)> = collect_iter(&m);
    let b = m.claim((30, 40)).unwrap();
    assert_eq!(b.region(), (30, 40));
    assert!(m.is_claimed((30, 40)));
    m.free(b);
    assert!(!m.is_claimed((30, 40)));
    let after: Vec<(usize, usize)> = collect_iter(&m);
    assert_eq!(before, after);
}

#[test]
fn force_free_without_handle() {
    let mut m = TableMemoryMapper::manage((0, 1000));
    let a = m.claim((10, 20)).unwrap();
    // Keep the handle alive but tear the entry down by value.
    assert!(m.is_claimed((10, 20)));
    m.force_free((10, 20));
    assert!(!m.is_claimed((10, 20)));
    drop(a);
}

#[test]
fn iter_yields_in_table_order() {
    let mut m = TableMemoryMapper::manage((0, 1000));
    let _a = m.claim((10, 20)).unwrap();
    let _b = m.claim((500, 600)).unwrap();
    let _c = m.claim((30, 40)).unwrap();
    assert_eq!(collect_iter(&m), vec![(10, 20), (500, 600), (30, 40)]);
}

#[test]
fn freed_slot_is_reused_first() {
    let mut m = TableMemoryMapper::manage((0, 1000));
    let a = m.claim((10, 20)).unwrap();
    let _b = m.claim((30, 40)).unwrap();
    m.free(a);
    let _c = m.claim((50, 60)).unwrap();
    // The new claim lands in the first empty slot, before (30, 40).
    assert_eq!(collect_iter(&m), vec![(50, 60), (30, 40)]);
}

#[test]
fn gaps_sort_claims_by_start() {
    let mut m = TableMemoryMapper::manage((0, 100));
    let _a = m.claim((60, 70)).unwrap();
    let _b = m.claim((10, 20)).unwrap();
    let mut g = m.gaps();
    assert_eq!(g.next(), Some((0, 10)));
    assert_eq!(g.next(), Some((20, 60)));
    assert_eq!(g.next(), Some((70, 100)));
    assert_eq!(g.next(), None);
}

#[test]
fn gaps_and_claims_partition_the_range() {
    let mut m = TableMemoryMapper::manage((0, 200));
    let _a = m.claim((20, 50)).unwrap();
    let _b = m.claim((120, 150)).unwrap();
    let _c = m.claim((50, 60)).unwrap();
    let claims = collect_iter(&m);
    let mut gaps = Vec::new();
    let mut g = m.gaps();
    while let Some(x) = g.next() {
        gaps.push(x);
    }
    for addr in 0..200usize {
        let in_claim = claims.iter().any(|&(s, e)| s <= addr && addr < e);
        let in_gap = gaps.iter().any(|&(s, e)| s <= addr && addr < e);
        assert!(in_claim != in_gap, "address {} must lie in exactly one side", addr);
    }
}

#[test]
fn is_full_on_fresh_map() {
    let m = TableMemoryMapper::manage((0, 10));
    assert!(!m.is_full());
}

fn collect_iter(m: &TableMemoryMapper) -> Vec<(usize, usize)> {
    let mut tm = m.iter();
    tm.collect()
}
