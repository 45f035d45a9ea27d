use symmetrix::bus_coalescing::{compressed_size, CoalescedRequests, MAX_PENDING};

#[test]
fn first_read_becomes_pending() {
    let mut q = CoalescedRequests::new();
    assert!(!q.try_coalesce(1000, 64));
    assert_eq!(q.requests(), &[(1000, 64)]);
}

#[test]
fn adjacent_and_overlapping_reads_extend_the_request() {
    let mut q = CoalescedRequests::new();
    q.try_coalesce(1000, 64);
    // starts at the end of the pending request
    assert!(q.try_coalesce(1064, 32));
    assert_eq!(q.requests(), &[(1000, 96)]);
    // starts inside it and ends inside it: the request keeps its size
    assert!(q.try_coalesce(1010, 10));
    assert_eq!(q.requests(), &[(1000, 96)]);
    // starts before it: a new request
    assert!(!q.try_coalesce(900, 10));
    assert_eq!(q.requests(), &[(1000, 96), (900, 10)]);
}

#[test]
fn first_matching_request_is_extended() {
    let mut q = CoalescedRequests::new();
    q.try_coalesce(0, 100);
    q.try_coalesce(200, 100);
    assert!(!q.try_coalesce(50_000, 1));
    assert!(q.try_coalesce(250, 200));
    assert_eq!(q.requests(), &[(0, 100), (200, 250), (50_000, 1)]);
}

#[test]
fn pending_requests_are_capped() {
    let mut q = CoalescedRequests::new();
    for k in 0..20u64 {
        assert!(!q.try_coalesce(k * 1000, 10));
    }
    assert_eq!(q.requests().len(), MAX_PENDING);
    assert_eq!(q.requests()[15], (15_000, 10));
}

#[test]
fn compression_keeps_a_thousandth() {
    assert_eq!(compressed_size(4096, true), 4);
    assert_eq!(compressed_size(999, true), 0);
    assert_eq!(compressed_size(4096, false), 4096);
}

#[test]
fn read_plans() {
    let mut q = symmetrix::bus_coalescing::CoalescedRequests::new();
    let hit = q.plan_read(0x1000, 4096, true, true, true, true);
    assert!(hit.cache_hit);
    assert_eq!(hit.compressed_size, 0);
    assert!(q.requests().is_empty());
    let first = q.plan_read(0x1000, 4096, true, false, true, true);
    assert!(!first.cache_hit && !first.coalesced);
    assert_eq!(first.compressed_size, 4);
    assert_eq!(q.requests(), &[(0x1000u64, 4096usize)]);
    let second = q.plan_read(0x1800, 4096, false, true, false, true);
    assert!(second.coalesced);
    assert_eq!(second.compressed_size, 4096);
    assert_eq!(q.requests(), &[(0x1000u64, 0x1800usize)]);
    let plain = q.plan_read(0x9000, 10, false, false, false, false);
    assert!(!plain.coalesced);
    assert_eq!(q.requests().len(), 1);
}
