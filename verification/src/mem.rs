//! The C memory routines that a program without a C library provides
//! itself, over byte slices.

use vstd::prelude::*;

verus! {

/// Copies the first `n` bytes of `src` to the front of `dest`.
pub fn memcpy(dest: &mut [u8], src: &[u8], n: usize)
    requires
        n <= old(dest)@.len(),
        n <= src@.len(),
    ensures
        final(dest)@ == src@.take(n as int) + old(dest)@.skip(n as int),
{
    let mut i: usize = 0;
    while i < n
        invariant
            n <= dest@.len(),
            n <= src@.len(),
            i <= n,
            dest@.len() == old(dest)@.len(),
            forall|j: int| 0 <= j < i ==> dest@[j] == src@[j],
            forall|j: int| i <= j < dest@.len() ==> dest@[j] == old(dest)@[j],
        decreases n - i,
    {
        dest[i] = src[i];
        i = i + 1;
    }
    proof {
        assert(dest@ =~= src@.take(n as int) + old(dest)@.skip(n as int));
    }
}

/// The byte that `memset` writes for the value `c`: its low 8 bits, as C
/// converts it to `unsigned char`.
pub open spec fn fill_byte(c: i32) -> u8 {
    c as u8
}

/// Sets the first `n` bytes of `s` to the byte for `c` (see `fill_byte`).
pub fn memset(s: &mut [u8], c: i32, n: usize)
    requires
        n <= old(s)@.len(),
    ensures
        final(s)@ == Seq::new(n as nat, |j: int| fill_byte(c)) + old(s)@.skip(n as int),
{
    let b: u8 = c as u8;
    let mut i: usize = 0;
    while i < n
        invariant
            n <= s@.len(),
            i <= n,
            b == fill_byte(c),
            s@.len() == old(s)@.len(),
            forall|j: int| 0 <= j < i ==> s@[j] == b,
            forall|j: int| i <= j < s@.len() ==> s@[j] == old(s)@[j],
        decreases n - i,
    {
        s[i] = b;
        i = i + 1;
    }
    proof {
        assert(s@ =~= Seq::new(n as nat, |j: int| fill_byte(c)) + old(s)@.skip(n as int));
    }
}

/// The comparison of the first `n` bytes of `a` and `b`: the difference of
/// the first pair of bytes that differ, or 0 when none do.
pub open spec fn compare_bytes(a: Seq<u8>, b: Seq<u8>, n: int) -> int
    decreases n,
{
    if n <= 0 {
        0
    } else if compare_bytes(a, b, n - 1) != 0 {
        compare_bytes(a, b, n - 1)
    } else if a[n - 1] != b[n - 1] {
        a[n - 1] - b[n - 1]
    } else {
        0
    }
}

proof fn lemma_compare_equal_prefix(a: Seq<u8>, b: Seq<u8>, n: int)
    requires
        0 <= n <= a.len(),
        n <= b.len(),
        forall|j: int| 0 <= j < n ==> a[j] == b[j],
    ensures
        compare_bytes(a, b, n) == 0,
    decreases n,
{
    if n > 0 {
        lemma_compare_equal_prefix(a, b, n - 1);
    }
}

proof fn lemma_compare_first_difference(a: Seq<u8>, b: Seq<u8>, i: int, n: int)
    requires
        0 <= i < n,
        n <= a.len(),
        n <= b.len(),
        forall|j: int| 0 <= j < i ==> a[j] == b[j],
        a[i] != b[i],
    ensures
        compare_bytes(a, b, n) == a[i] - b[i],
    decreases n,
{
    if n - 1 > i {
        lemma_compare_first_difference(a, b, i, n - 1);
    } else {
        lemma_compare_equal_prefix(a, b, i);
    }
}

/// `compare_bytes` over the first `n` bytes.
pub open spec fn prefix_difference(a: Seq<u8>, b: Seq<u8>, n: usize) -> int {
    compare_bytes(a, b, n as int)
}

/// The difference of the first pair of bytes that differ among the first
/// `n` bytes of `s1` and `s2`, or 0.
fn first_difference(s1: &[u8], s2: &[u8], n: usize) -> (r: i32)
    requires
        n <= s1@.len(),
        n <= s2@.len(),
    ensures
        r == prefix_difference(s1@, s2@, n),
{
    let mut i: usize = 0;
    while i < n
        invariant
            n <= s1@.len(),
            n <= s2@.len(),
            i <= n,
            forall|j: int| 0 <= j < i ==> s1@[j] == s2@[j],
        decreases n - i,
    {
        let a = s1[i];
        let b = s2[i];
        if a != b {
            proof {
                lemma_compare_first_difference(s1@, s2@, i as int, n as int);
            }
            return a as i32 - b as i32;
        }
        i = i + 1;
    }
    proof {
        lemma_compare_equal_prefix(s1@, s2@, n as int);
    }
    0
}

/// Compares the first `n` bytes of `s1` and `s2` (see `compare_bytes`).
pub fn bcmp(s1: &[u8], s2: &[u8], n: usize) -> (r: i32)
    requires
        n <= s1@.len(),
        n <= s2@.len(),
    ensures
        r == prefix_difference(s1@, s2@, n),
{
    first_difference(s1, s2, n)
}

/// Compares the first `n` bytes of `s1` and `s2`, as `bcmp` does.
pub fn memcmp(s1: &[u8], s2: &[u8], n: usize) -> (r: i32)
    requires
        n <= s1@.len(),
        n <= s2@.len(),
    ensures
        r == prefix_difference(s1@, s2@, n),
{
    bcmp(s1, s2, n)
}

/// Returns the length of the NUL-terminated string at the start of `s`: the
/// index of its first 0 byte.
pub fn strlen(s: &[u8]) -> (r: usize)
    requires
        exists|j: int| 0 <= j < s@.len() && s@[j] == 0,
    ensures
        r < s@.len(),
        s@[r as int] == 0,
        forall|j: int| 0 <= j < r ==> s@[j] != 0,
{
    let mut len: usize = 0;
    while s[len] != 0
        invariant
            len < s@.len(),
            exists|j: int| len <= j < s@.len() && s@[j] == 0,
            forall|j: int| 0 <= j < len ==> s@[j] != 0,
        decreases s@.len() - len,
    {
        len = len + 1;
    }
    len
}

} // verus!
