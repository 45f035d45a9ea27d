//! Coalescing of GPU bus reads: a read that starts inside (or right at the end of) a
//! pending request extends that request instead of taking a bus transaction of its
//! own; other reads become pending requests, up to a fixed number of them.
use vstd::prelude::*;

verus! {

/// Most requests kept pending at a time (one SIMD-aligned batch).
pub const MAX_PENDING: usize = 16;

/// The read at `address` starts inside the pending request `r` or right at its end.
pub open spec fn starts_within(r: (u64, usize), address: u64) -> bool {
    r.0 <= address && address <= r.0 + r.1
}

/// Index of the first pending request that the read at `address` starts within, or
/// the number of requests when there is none.
pub open spec fn first_within(requests: Seq<(u64, usize)>, address: u64) -> int
    decreases requests.len(),
{
    if requests.len() == 0 {
        0
    } else if starts_within(requests[0], address) {
        0
    } else {
        1 + first_within(requests.drop_first(), address)
    }
}

/// Request `r` extended to also cover the read of `size` bytes at `address`.
pub open spec fn extended(r: (u64, usize), address: u64, size: usize) -> (u64, usize) {
    let existing_end = r.0 + r.1;
    let new_end = address + size;
    (r.0, ((if new_end > existing_end { new_end } else { existing_end }) - r.0) as usize)
}

/// Every request, and the read, end within the address space.
pub open spec fn ends_fit(requests: Seq<(u64, usize)>, address: u64, size: usize) -> bool {
    &&& address + size <= u64::MAX
    &&& forall|i: int| 0 <= i < requests.len() ==> #[trigger] requests[i].0 + requests[i].1 <= u64::MAX
}

proof fn lemma_first_within(requests: Seq<(u64, usize)>, address: u64)
    ensures
        0 <= first_within(requests, address) <= requests.len(),
        first_within(requests, address) < requests.len() ==> starts_within(
            requests[first_within(requests, address)],
            address,
        ),
        forall|j: int| 0 <= j < first_within(requests, address) ==> !#[trigger] starts_within(requests[j], address),
    decreases requests.len(),
{
    if requests.len() > 0 && !starts_within(requests[0], address) {
        let rest = requests.drop_first();
        lemma_first_within(rest, address);
        assert forall|j: int| 0 <= j < first_within(requests, address) implies !#[trigger] starts_within(
            requests[j],
            address,
        ) by {
            if j > 0 {
                assert(requests[j] == rest[j - 1]);
            }
        }
    }
}

proof fn lemma_first_within_is(requests: Seq<(u64, usize)>, address: u64, i: int)
    requires
        0 <= i <= requests.len(),
        forall|j: int| 0 <= j < i ==> !#[trigger] starts_within(requests[j], address),
        i < requests.len() ==> starts_within(requests[i], address),
    ensures
        first_within(requests, address) == i,
    decreases i,
{
    if i > 0 {
        let rest = requests.drop_first();
        assert forall|j: int| 0 <= j < i - 1 implies !#[trigger] starts_within(rest[j], address) by {
            assert(rest[j] == requests[j + 1]);
        }
        if i - 1 < rest.len() {
            assert(rest[i - 1] == requests[i]);
        }
        lemma_first_within_is(rest, address, i - 1);
        assert(!starts_within(requests[0], address));
    } else if requests.len() > 0 {
        assert(starts_within(requests[0], address));
    }
}

/// Pending bus requests, by start address and size.
pub struct CoalescedRequests {
    requests: Vec<(u64, usize)>,
}

impl CoalescedRequests {
    /// The pending requests, oldest first.
    pub closed spec fn pending(&self) -> Seq<(u64, usize)> {
        self.requests@
    }

    pub fn new() -> (r: Self)
        ensures
            r.pending() == Seq::<(u64, usize)>::empty(),
    {
        CoalescedRequests { requests: Vec::new() }
    }

    /// Try to coalesce the read of `size` bytes at `address` with a pending request:
    /// the first request it starts within is extended to cover it, and the answer is
    /// yes; otherwise it becomes a pending request itself when there is room, and the
    /// answer is no.
    pub fn try_coalesce(&mut self, address: u64, size: usize) -> (r: bool)
        requires
            ends_fit(old(self).pending(), address, size),
        ensures
            r == (first_within(old(self).pending(), address) < old(self).pending().len()),
            r ==> final(self).pending() == old(self).pending().update(
                first_within(old(self).pending(), address),
                extended(old(self).pending()[first_within(old(self).pending(), address)], address, size),
            ),
            !r ==> final(self).pending() == if old(self).pending().len() < MAX_PENDING {
                old(self).pending().push((address, size))
            } else {
                old(self).pending()
            },
    {
        let n = self.requests.len();
        let mut i: usize = 0;
        while i < n
            invariant
                n == self.requests.len(),
                self.requests@ == old(self).requests@,
                ends_fit(self.requests@, address, size),
                0 <= i <= n,
                forall|j: int| 0 <= j < i ==> !#[trigger] starts_within(self.requests@[j], address),
            decreases n - i,
        {
            let (existing_addr, existing_size) = self.requests[i];
            let existing_end = existing_addr + existing_size as u64;
            let new_end = address + size as u64;
            if address >= existing_addr && address <= existing_end {
                let end = if new_end > existing_end {
                    new_end
                } else {
                    existing_end
                };
                proof {
                    lemma_first_within_is(self.requests@, address, i as int);
                }
                self.requests.set(i, (existing_addr, (end - existing_addr) as usize));
                return true;
            }
            i += 1;
        }
        proof {
            lemma_first_within_is(self.requests@, address, n as int);
        }
        if self.requests.len() < MAX_PENDING {
            self.requests.push((address, size));
        }
        false
    }

    /// The pending requests, oldest first.
    pub fn requests(&self) -> (r: &[(u64, usize)])
        ensures
            r@ == self.pending(),
    {
        self.requests.as_slice()
    }
}

/// Bytes that cross the bus for a read of `size` bytes: a thousandth of them with
/// compression, all of them without.
pub fn compressed_size(size: usize, enable_compression: bool) -> (r: usize)
    ensures
        r == if enable_compression {
            size / 1000
        } else {
            size
        },
{
    if enable_compression {
        size / 1000
    } else {
        size
    }
}

/// The pending requests stay few and well placed: coalescing never keeps more than
/// `MAX_PENDING` requests, and a read that was coalesced lies inside the request that
/// took it (when that request's new size fits in a machine word).
pub proof fn law_coalescing_bounded(
    before: Seq<(u64, usize)>,
    after: Seq<(u64, usize)>,
    address: u64,
    size: usize,
    r: bool,
)
    requires
        before.len() <= MAX_PENDING,
        ends_fit(before, address, size),
        r == (first_within(before, address) < before.len()),
        r ==> after == before.update(
            first_within(before, address),
            extended(before[first_within(before, address)], address, size),
        ),
        !r ==> after == if before.len() < MAX_PENDING {
            before.push((address, size))
        } else {
            before
        },
    ensures
        after.len() <= MAX_PENDING,
        r ==> {
            let k = first_within(before, address);
            let e = extended(before[k], address, size);
            &&& e.0 <= address
            &&& (if address + size > before[k].0 + before[k].1 {
                address + size
            } else {
                before[k].0 + before[k].1
            }) - before[k].0 <= usize::MAX ==> address + size <= e.0 + e.1
        },
{
    lemma_first_within(before, address);
}

/// A read joins the oldest pending request that it starts inside of (or right at the end
/// of): that request covers its address and no older one does; and a read that joins
/// none starts inside of no pending request.
pub proof fn law_coalesce_picks_oldest_match(before: Seq<(u64, usize)>, address: u64)
    ensures
        0 <= first_within(before, address) <= before.len(),
        first_within(before, address) < before.len() ==> {
            let k = first_within(before, address);
            &&& before[k].0 <= address <= before[k].0 + before[k].1
            &&& forall|j: int|
                0 <= j < k ==> !(#[trigger] before[j].0 <= address <= before[j].0 + before[j].1)
        },
        first_within(before, address) == before.len() ==> forall|j: int|
            0 <= j < before.len() ==> !(#[trigger] before[j].0 <= address <= before[j].0 + before[j].1),
{
    lemma_first_within(before, address);
    let k = first_within(before, address);
    assert forall|j: int| 0 <= j < k implies !(#[trigger] before[j].0 <= address <= before[j].0
        + before[j].1) by {
        assert(!starts_within(before[j], address));
    }
}

/// What becomes of a read on the memory bus: served from the transaction cache, or
/// sent as `compressed_size` bytes, merged or not with a pending request.
#[derive(Debug, Clone, Copy, PartialEq, Eq, Structural)]
pub struct ReadPlan {
    pub cache_hit: bool,
    pub compressed_size: usize,
    pub coalesced: bool,
}

impl CoalescedRequests {
    /// Decide a read of `size` bytes at `address`: with the cache in use and the
    /// address cached, a hit that sends nothing; otherwise the read is sent compressed
    /// (when compression is on) and, when coalescing is on, merged with or queued
    /// among the pending requests as `try_coalesce` does.
    pub fn plan_read(
        &mut self,
        address: u64,
        size: usize,
        use_cache: bool,
        cached: bool,
        compress: bool,
        coalesce: bool,
    ) -> (r: ReadPlan)
        requires
            !(use_cache && cached) && coalesce ==> ends_fit(old(self).pending(), address, size),
        ensures
            use_cache && cached ==> r == (ReadPlan { cache_hit: true, compressed_size: 0, coalesced: false })
                && final(self).pending() == old(self).pending(),
            !(use_cache && cached) ==> !r.cache_hit && r.compressed_size == (if compress {
                size / 1000
            } else {
                size
            }),
            !(use_cache && cached) && !coalesce ==> !r.coalesced && final(self).pending() == old(self).pending(),
            !(use_cache && cached) && coalesce ==> {
                let k = first_within(old(self).pending(), address);
                &&& r.coalesced == (k < old(self).pending().len())
                &&& r.coalesced ==> final(self).pending() == old(self).pending().update(
                    k,
                    extended(old(self).pending()[k], address, size),
                )
                &&& !r.coalesced ==> final(self).pending() == if old(self).pending().len() < MAX_PENDING {
                    old(self).pending().push((address, size))
                } else {
                    old(self).pending()
                }
            },
    {
        if use_cache && cached {
            return ReadPlan { cache_hit: true, compressed_size: 0, coalesced: false };
        }
        let compressed = compressed_size(size, compress);
        let coalesced = if coalesce {
            self.try_coalesce(address, size)
        } else {
            false
        };
        ReadPlan { cache_hit: false, compressed_size: compressed, coalesced }
    }
}

} // verus!
