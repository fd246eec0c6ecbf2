//! A bump allocator over a fixed heap of `N` bytes.
//!
//! The allocator hands out consecutive, suitably aligned regions of its heap
//! by advancing a single offset, and never reclaims memory. Regions are
//! described by their byte offset from the start of the heap.

use vstd::prelude::*;
use vstd::arithmetic::div_mod::lemma_fundamental_div_mod;
use vstd::arithmetic::power2::{pow2, lemma_pow2_pos};
use vstd::bits::{low_bits_mask, lemma_usize_low_bits_mask_is_mod};

verus! {

/// Default heap size (32 KiB).
pub const DEFAULT_HEAP_SIZE: usize = 32768;

/// `a` is a power of two that fits in a `usize`.
pub open spec fn is_power_of_two(a: nat) -> bool {
    exists|k: nat| k < usize::BITS && pow2(k) == a
}

/// The smallest multiple of `align` that is at least `x`.
pub open spec fn align_up(x: nat, align: nat) -> nat
    recommends
        align > 0,
{
    (((x + align - 1) as nat / align) * align) as nat
}

/// What an allocation request does to a heap of `cap` bytes whose first
/// `next` bytes are in use: `Some((start, new_next))` when the aligned region
/// fits, `None` when it does not.
pub open spec fn alloc_outcome(next: nat, size: nat, align: nat, cap: nat) -> Option<(nat, nat)> {
    let start = align_up(next, align);
    if start + size > cap {
        None
    } else {
        Some((start, start + size))
    }
}

/// The properties of `align_up`: the result is a multiple of `align`, is not
/// below `x`, and is less than `align` above it.
pub proof fn lemma_align_up(x: nat, align: nat)
    requires
        align > 0,
    ensures
        align_up(x, align) % align == 0,
        x <= align_up(x, align) < x + align,
{
    let y = (x + align - 1) as nat;
    let q = y / align;
    let r = y % align;
    lemma_fundamental_div_mod(y as int, align as int);
    assert(q * align == y - r) by (nonlinear_arith)
        requires
            y == align * q + r,
    ;
    vstd::arithmetic::div_mod::lemma_mod_multiples_basic(q as int, align as int);
    assert(0 <= r < align);
}

/// A bump allocator managing a heap of `N` bytes.
///
/// `next` is the offset of the first byte that has not been handed out.
pub struct BumpAllocator<const N: usize> {
    next: usize,
}

impl<const N: usize> View for BumpAllocator<N> {
    type V = nat;

    /// The number of bytes handed out so far.
    closed spec fn view(&self) -> nat {
        self.next as nat
    }
}

impl<const N: usize> BumpAllocator<N> {
    /// The allocator's invariant: it never hands out more than its heap.
    pub closed spec fn wf(&self) -> bool {
        self.next <= N
    }

    /// A well-formed allocator never has more bytes in use than its heap holds.
    pub proof fn lemma_used_within_capacity(&self)
        requires
            self.wf(),
        ensures
            self@ <= N,
    {
    }

    /// Creates an allocator with nothing allocated yet.
    pub fn new() -> (r: Self)
        ensures
            r.wf(),
            r@ == 0,
    {
        BumpAllocator { next: 0 }
    }

    /// Returns the number of bytes currently allocated.
    pub fn used(&self) -> (r: usize)
        ensures
            r == self@,
    {
        self.next
    }

    /// Returns the total heap size.
    pub fn capacity(&self) -> (r: usize)
        ensures
            r == N,
    {
        N
    }

    /// Returns the number of bytes remaining.
    pub fn remaining(&self) -> (r: usize)
        requires
            self.wf(),
        ensures
            r == N - self@,
            r + self@ == N,
    {
        N - self.next
    }

    /// Allocates `size` bytes aligned to `align`, returning the offset of the
    /// region in the heap, or `None` when the heap is exhausted (the null
    /// pointer of a global allocator).
    ///
    /// The current offset is rounded up with the mask `!(align - 1)`.
    pub fn allocate(&mut self, size: usize, align: usize) -> (r: Option<usize>)
        requires
            old(self).wf(),
            is_power_of_two(align as nat),
            old(self)@ + align <= usize::MAX,
            align_up(old(self)@, align as nat) + size <= usize::MAX,
        ensures
            final(self).wf(),
            old(self)@ <= final(self)@,
            r == (match alloc_outcome(old(self)@, size as nat, align as nat, N as nat) {
                Some((start, _)) => Some(start as usize),
                None => None::<usize>,
            }),
            match alloc_outcome(old(self)@, size as nat, align as nat, N as nat) {
                Some((_, new_next)) => final(self)@ == new_next,
                None => final(self)@ == old(self)@,
            },
            r matches Some(start) ==> {
                &&& start as nat % align as nat == 0
                &&& old(self)@ <= start
                &&& start + size <= N
            },
    {
        let ghost k: nat = choose|k: nat| k < usize::BITS && pow2(k) == align as nat;
        proof {
            lemma_pow2_pos(k);
        }
        let next = self.next;
        let y: usize = next + align - 1;
        let mask: usize = align - 1;
        let start: usize = y & !mask;
        proof {
            assert(mask as nat == low_bits_mask(k));
            lemma_usize_low_bits_mask_is_mod(y, k);
            assert(y & mask == y % align);
            assert((y & !mask) + (y & mask) == y) by (bit_vector);
            let ghost q = y as nat / align as nat;
            let ghost rm = y as nat % align as nat;
            lemma_fundamental_div_mod(y as int, align as int);
            assert(q * align == y - rm) by (nonlinear_arith)
                requires
                    y == align * q + rm,
            ;
            assert(start as nat == align_up(next as nat, align as nat));
            lemma_align_up(next as nat, align as nat);
        }
        let end: usize = start + size;
        if end > N {
            None
        } else {
            self.next = end;
            Some(start)
        }
    }

    /// Releases a region. A bump allocator never reclaims memory, so this
    /// leaves the allocator unchanged.
    pub fn dealloc(&mut self, offset: usize, size: usize, align: usize)
        ensures
            final(self)@ == old(self)@,
    {
    }
}

/// The allocator with the default heap size.
pub type BumpAlloc = BumpAllocator<DEFAULT_HEAP_SIZE>;

impl<const N: usize> Default for BumpAllocator<N> {
    fn default() -> (r: Self)
        ensures
            r.wf(),
            r@ == 0,
    {
        Self::new()
    }
}

/// Two successful allocations in a row hand out disjoint regions, the second
/// after the first.
pub proof fn lemma_allocations_disjoint(
    next: nat,
    cap: nat,
    size1: nat,
    align1: nat,
    size2: nat,
    align2: nat,
)
    requires
        align1 > 0,
        align2 > 0,
        alloc_outcome(next, size1, align1, cap) is Some,
        alloc_outcome(alloc_outcome(next, size1, align1, cap).unwrap().1, size2, align2, cap) is Some,
    ensures
        ({
            let (start1, next1) = alloc_outcome(next, size1, align1, cap).unwrap();
            let (start2, next2) = alloc_outcome(next1, size2, align2, cap).unwrap();
            &&& start1 + size1 <= start2
            &&& next2 <= cap
            &&& next <= start1
        }),
{
    lemma_align_up(next, align1);
    let next1 = alloc_outcome(next, size1, align1, cap).unwrap().1;
    lemma_align_up(next1, align2);
}

/// The offsets handed out for a sequence of `(size, align)` requests made
/// in turn on a heap of `cap` bytes whose first `next` bytes are in use:
/// `Some(start)` for a request that fits, `None` for one that does not.
pub open spec fn alloc_trace(next: nat, reqs: Seq<(nat, nat)>, cap: nat) -> Seq<Option<nat>>
    decreases reqs.len(),
{
    if reqs.len() == 0 {
        Seq::empty()
    } else {
        match alloc_outcome(next, reqs[0].0, reqs[0].1, cap) {
            Some((start, new_next)) => seq![Some(start)] + alloc_trace(new_next, reqs.drop_first(), cap),
            None => seq![None] + alloc_trace(next, reqs.drop_first(), cap),
        }
    }
}

/// The number of bytes in use once the requests `reqs` have been made.
pub open spec fn used_after(next: nat, reqs: Seq<(nat, nat)>, cap: nat) -> nat
    decreases reqs.len(),
{
    if reqs.len() == 0 {
        next
    } else {
        match alloc_outcome(next, reqs[0].0, reqs[0].1, cap) {
            Some((_, new_next)) => used_after(new_next, reqs.drop_first(), cap),
            None => used_after(next, reqs.drop_first(), cap),
        }
    }
}

/// Over any sequence of allocation requests (`dealloc` changes nothing in
/// between), the bytes in use never decrease and never exceed the heap,
/// every region handed out lies between the bytes in use before the
/// sequence and after it, and the regions of any two successful requests
/// are disjoint, the later one after the earlier.
pub proof fn lemma_allocation_sequence(next: nat, reqs: Seq<(nat, nat)>, cap: nat)
    requires
        next <= cap,
        forall|i: int| 0 <= i < reqs.len() ==> #[trigger] reqs[i].1 > 0,
    ensures
        alloc_trace(next, reqs, cap).len() == reqs.len(),
        next <= used_after(next, reqs, cap) <= cap,
        forall|i: int|
            0 <= i < reqs.len() && #[trigger] alloc_trace(next, reqs, cap)[i] is Some ==> {
                &&& next <= alloc_trace(next, reqs, cap)[i].unwrap()
                &&& alloc_trace(next, reqs, cap)[i].unwrap() + reqs[i].0 <= used_after(next, reqs, cap)
            },
        forall|i: int, j: int|
            #![trigger alloc_trace(next, reqs, cap)[i], alloc_trace(next, reqs, cap)[j]]
            0 <= i < j < reqs.len() && alloc_trace(next, reqs, cap)[i] is Some && alloc_trace(
                next,
                reqs,
                cap,
            )[j] is Some ==> alloc_trace(next, reqs, cap)[i].unwrap() + reqs[i].0 <= alloc_trace(
                next,
                reqs,
                cap,
            )[j].unwrap(),
    decreases reqs.len(),
{
    if reqs.len() > 0 {
        let size = reqs[0].0;
        let align = reqs[0].1;
        assert(reqs[0].1 > 0);
        lemma_align_up(next, align);
        let rest = reqs.drop_first();
        assert forall|i: int| 0 <= i < rest.len() implies #[trigger] rest[i].1 > 0 by {
            assert(rest[i] == reqs[i + 1]);
        }
        let tr = alloc_trace(next, reqs, cap);
        let (n1, head) = match alloc_outcome(next, size, align, cap) {
            Some((start, new_next)) => (new_next, Some(start)),
            None => (next, None::<nat>),
        };
        lemma_allocation_sequence(n1, rest, cap);
        let rt = alloc_trace(n1, rest, cap);
        assert(tr =~= seq![head] + rt);
        assert(used_after(next, reqs, cap) == used_after(n1, rest, cap));
        assert forall|i: int| 0 <= i < reqs.len() && #[trigger] tr[i] is Some implies {
            &&& next <= tr[i].unwrap()
            &&& tr[i].unwrap() + reqs[i].0 <= used_after(next, reqs, cap)
        } by {
            if i > 0 {
                assert(tr[i] == rt[i - 1]);
                assert(reqs[i] == rest[i - 1]);
            }
        }
        assert forall|i: int, j: int|
            #![trigger tr[i], tr[j]]
            0 <= i < j < reqs.len() && tr[i] is Some && tr[j] is Some implies tr[i].unwrap()
                + reqs[i].0 <= tr[j].unwrap() by {
            assert(tr[j] == rt[j - 1]);
            assert(reqs[j] == rest[j - 1]);
            if i > 0 {
                assert(tr[i] == rt[i - 1]);
                assert(reqs[i] == rest[i - 1]);
            }
        }
    }
}

} // verus!
