//! The attacker-controlled memory region and the initial candidate geometry.
//!
//! A region is a buffer of `capacity` bytes partitioned into lines of
//! `line_size` bytes.  Candidate addresses are byte offsets into the region
//! aligned to a stride (a multiple of the line size), one per stride across
//! the whole region.  Addresses are carried as `u32`, so a region wider than
//! `2^32` bytes is rejected at construction rather than silently truncated.

use vstd::prelude::*;

verus! {

/// Upper bound on the region capacity: every candidate address must be
/// representable in the chosen `u32` index width.
pub const ADDRESS_SPACE: usize = 0xFFFF_FFFF;

/// Reference size of the targeted last-level cache: 4 MiB.
///
/// The reference figures below describe the Intel i7-6600U and are metadata
/// for picking a geometry; none of them is enforced by the algorithm.
pub const LLC_SIZE: usize = 0x40_0000;

/// Reference size of a cache line: 64 bytes.
pub const CACHE_LINE_SIZE: usize = 64;

/// Reference associativity of the last-level cache: lines per cache set.
pub const LLC_ASSOCIATIVITY: u32 = 16;

/// Reference number of cache sets in the last-level cache.
pub const NUM_CACHE_SETS: u32 = 4096;

/// Reference page size: 4 KiB.
pub const PAGE_SIZE: usize = 4096;

/// Configuration and call errors.  Degenerate but well-formed configurations
/// (an empty region, a zero budget) are not errors.
#[derive(Clone, Copy, Debug, PartialEq, Eq, Structural)]
pub enum ProfileError {
    /// The line size is zero, or the capacity is not a whole number of lines.
    InvalidLineSize,
    /// The stride is smaller than a line or not a whole number of lines.
    InvalidStride,
    /// The capacity produces candidate addresses wider than `u32`.
    CandidateOverflow,
    /// The victim address lies outside the region.
    VictimOutOfBounds,
}

/// A fixed-size backing buffer whose contents are irrelevant: only its
/// addresses matter.  The geometry is immutable after construction.
pub struct MemoryRegion {
    buf: Vec<u8>,
    line_size: usize,
}

/// Relies on `std::hint::black_box`: an identity function whose argument the
/// optimizer must treat as used, so the load that produced it is genuine.
#[verifier::external_body]
fn opaque_sink(v: u8) -> (r: u8)
    ensures
        r == v,
{
    std::hint::black_box(v)
}

impl MemoryRegion {
    /// Size of the region in bytes.
    pub closed spec fn capacity(&self) -> int {
        self.buf@.len() as int
    }

    /// Size of one cache line in bytes.
    pub closed spec fn line(&self) -> int {
        self.line_size as int
    }

    /// The geometry every region upholds: whole lines only, and every
    /// address representable as a `u32`.
    pub open spec fn geometry_wf(&self) -> bool {
        &&& self.line() > 0
        &&& self.capacity() % self.line() == 0
        &&& self.capacity() <= ADDRESS_SPACE as int
    }

    #[verifier::type_invariant]
    spec fn type_wf(&self) -> bool {
        self.geometry_wf()
    }

    /// Build a region of `capacity` bytes in lines of `line_size` bytes.
    pub fn new(capacity: usize, line_size: usize) -> (r: Result<MemoryRegion, ProfileError>)
        ensures
            match r {
                Ok(region) => {
                    &&& region.capacity() == capacity as int
                    &&& region.line() == line_size as int
                    &&& line_size > 0
                    &&& capacity as int % line_size as int == 0
                    &&& capacity <= ADDRESS_SPACE
                },
                Err(e) => {
                    &&& (e == ProfileError::InvalidLineSize <==> (line_size == 0
                        || capacity as int % line_size as int != 0))
                    &&& (e == ProfileError::CandidateOverflow <==> (line_size > 0
                        && capacity as int % line_size as int == 0
                        && capacity > ADDRESS_SPACE))
                    &&& (e == ProfileError::InvalidLineSize || e == ProfileError::CandidateOverflow)
                },
            },
            r is Ok <==> (line_size > 0 && capacity as int % line_size as int == 0
                && capacity <= ADDRESS_SPACE),
    {
        if line_size == 0 || capacity % line_size != 0 {
            return Err(ProfileError::InvalidLineSize);
        }
        if capacity > ADDRESS_SPACE {
            return Err(ProfileError::CandidateOverflow);
        }
        let mut buf: Vec<u8> = Vec::new();
        while buf.len() < capacity
            invariant
                buf@.len() <= capacity,
            decreases capacity - buf@.len(),
        {
            buf.push(0u8);
        }
        Ok(MemoryRegion { buf, line_size })
    }

    /// Size of the region in bytes.
    pub fn capacity_bytes(&self) -> (n: usize)
        ensures
            n as int == self.capacity(),
    {
        self.buf.len()
    }

    /// Size of one cache line in bytes.
    pub fn line_bytes(&self) -> (n: usize)
        ensures
            n as int == self.line(),
    {
        self.line_size
    }

    /// Perform a genuine load of the byte at `addr`, consuming the value so
    /// that the memory transaction cannot be elided.
    pub fn touch(&self, addr: usize)
        requires
            addr < self.capacity(),
    {
        let v = self.buf[addr];
        opaque_sink(v);
    }
}

/// Whether address `a` belongs to the initial candidate geometry of a region
/// of `capacity` bytes sampled at `stride`.
pub open spec fn in_geometry(a: u32, capacity: int, stride: int) -> bool {
    &&& a as int % stride == 0
    &&& (a as int) < capacity
}

/// How many candidates the initial geometry holds: one per stride across the
/// region.
pub open spec fn candidate_count(capacity: int, stride: int) -> int {
    (capacity + stride - 1) / stride
}

/// The initial candidate set: addresses `0, stride, 2*stride, ...` below
/// `capacity`, in ascending order.
pub open spec fn candidate_seq(capacity: int, stride: int) -> Seq<u32> {
    Seq::new(candidate_count(capacity, stride) as nat, |i: int| (i * stride) as u32)
}

/// A sequence without repeated elements.
pub open spec fn no_dups(s: Seq<u32>) -> bool {
    forall|i: int, j: int| 0 <= i < j < s.len() ==> s[i] != s[j]
}

/// A sequence in strictly ascending order.
pub open spec fn sorted_strict(s: Seq<u32>) -> bool {
    forall|i: int, j: int| 0 <= i < j < s.len() ==> s[i] < s[j]
}

/// A sequence in ascending order, repeats allowed.
pub open spec fn sorted(s: Seq<u32>) -> bool {
    forall|i: int, j: int| 0 <= i < j < s.len() ==> s[i] <= s[j]
}

/// The initial candidate sequence is strictly ascending, free of duplicates,
/// and lies entirely inside the geometry it samples.
pub proof fn lemma_candidate_seq_props(capacity: int, stride: int)
    requires
        stride >= 1,
        0 <= capacity <= ADDRESS_SPACE as int,
    ensures
        sorted_strict(candidate_seq(capacity, stride)),
        no_dups(candidate_seq(capacity, stride)),
        forall|j: int|
            0 <= j < candidate_seq(capacity, stride).len() ==> in_geometry(
                #[trigger] candidate_seq(capacity, stride)[j],
                capacity,
                stride,
            ),
        candidate_seq(capacity, stride).len() == candidate_count(capacity, stride),
        capacity >= 1 ==> candidate_seq(capacity, stride).len() >= 1,
{
    let g = candidate_seq(capacity, stride);
    let n = candidate_count(capacity, stride);
    assert(n >= 0) by (nonlinear_arith)
        requires
            stride >= 1,
            capacity >= 0,
            n == (capacity + stride - 1) / stride,
    ;
    assert forall|j: int| 0 <= j < g.len() implies 0 <= #[trigger] (j * stride) < capacity by {
        assert(0 <= j * stride < capacity) by (nonlinear_arith)
            requires
                stride >= 1,
                0 <= j < (capacity + stride - 1) / stride,
        ;
    }
    assert forall|j: int| 0 <= j < g.len() implies in_geometry(g[j], capacity, stride) by {
        assert(g[j] == (j * stride) as u32);
        assert((j * stride) as u32 as int == j * stride);
        assert((j * stride) % stride == 0) by (nonlinear_arith)
            requires
                stride >= 1,
                j >= 0,
        ;
    }
    assert forall|i: int, j: int| 0 <= i < j < g.len() implies g[i] < g[j] by {
        assert(i * stride < j * stride) by (nonlinear_arith)
            requires
                stride >= 1,
                0 <= i < j,
        ;
        assert((i * stride) as u32 as int == i * stride);
        assert((j * stride) as u32 as int == j * stride);
    }
    if capacity >= 1 {
        assert(n >= 1) by (nonlinear_arith)
            requires
                stride >= 1,
                capacity >= 1,
                n == (capacity + stride - 1) / stride,
        ;
    }
}

/// Lying in the geometry is exactly membership in the initial candidate
/// sequence: the addresses aligned to the stride and inside the region are
/// the candidates, and nothing else is.
pub proof fn lemma_in_geometry_is_membership(capacity: int, stride: int, x: u32)
    requires
        stride >= 1,
        0 <= capacity <= ADDRESS_SPACE as int,
    ensures
        in_geometry(x, capacity, stride) <==> candidate_seq(capacity, stride).contains(x),
{
    let g = candidate_seq(capacity, stride);
    let n = candidate_count(capacity, stride);
    lemma_candidate_seq_props(capacity, stride);
    if in_geometry(x, capacity, stride) {
        let j = (x as int) / stride;
        assert(j * stride == x as int) by (nonlinear_arith)
            requires
                stride >= 1,
                x as int >= 0,
                x as int % stride == 0,
                j == (x as int) / stride,
        ;
        assert(0 <= j < n) by (nonlinear_arith)
            requires
                stride >= 1,
                0 <= x as int,
                (x as int) < capacity,
                j * stride == x as int,
                n == (capacity + stride - 1) / stride,
        ;
        assert(g[j] == (j * stride) as u32);
        assert(g[j] == x);
        assert(g.contains(x));
    }
    if g.contains(x) {
        let j = choose|j: int| 0 <= j < g.len() && g[j] == x;
        assert(in_geometry(g[j], capacity, stride));
    }
}

} // verus!
