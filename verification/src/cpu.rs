//! CPU topology and model name, computed from the contents of the kernel's
//! cpulist files, the affinity mask and `/proc/cpuinfo`.

use vstd::prelude::*;
use vstd::string::*;
use crate::text::{
    decimal, digit_run_len, digits_value, is_digit, leading_number, lemma_digit_run,
    lemma_digits_value_prefix, lemma_digits_value_push, write_u64,
};
use crate::system::{fits_u64, parse_u64_fast};

verus! {

// ---------------------------------------------------------------------------
// cpulist parsing
// ---------------------------------------------------------------------------

/// Index just past the decimal number that starts at `i` in `data`.
pub open spec fn number_end(data: Seq<u8>, i: int) -> int {
    i + digit_run_len(data.skip(i))
}

/// Value of the decimal number that starts at `i` in `data` (0 when no digit
/// stands there).
pub open spec fn number_at(data: Seq<u8>, i: int) -> nat {
    leading_number(data.skip(i))
}

/// One item of a cpulist starting at `i`: a number `a`, or a range `a-b`,
/// optionally followed by a ',' or '\n' separator.
///
/// Gives the index after the item and its separator, the number of CPUs
/// the item lists (1, or `b - a + 1`), and whether the item can be counted
/// in 32-bit arithmetic (its numbers fit and a range does not descend).
pub open spec fn cpulist_item(data: Seq<u8>, i: int) -> (int, int, bool) {
    let a_end = number_end(data, i);
    let a = number_at(data, i);
    let (after, listed, sound) = if a_end < data.len() && data[a_end] == 45 {
        let b = number_at(data, a_end + 1);
        (number_end(data, a_end + 1), b - a + 1, a <= u32::MAX && b <= u32::MAX && a <= b)
    } else {
        (a_end, 1int, a <= u32::MAX)
    };
    let next = if after < data.len() && (data[after] == 44 || data[after] == 10) {
        after + 1
    } else {
        after
    };
    (next, listed, sound)
}

/// The number of CPUs listed from index `i` on, item by item, or `None`
/// when an item cannot be counted or the scan would stop advancing (a byte
/// that is neither a digit, '-', ',' nor '\n').
pub open spec fn cpulist_count_from(data: Seq<u8>, i: int) -> Option<int>
    decreases data.len() - i,
{
    if i >= data.len() {
        Some(0)
    } else {
        let (next, listed, sound) = cpulist_item(data, i);
        if !sound || next <= i || next > data.len() {
            None
        } else {
            match cpulist_count_from(data, next) {
                Some(rest) => Some(listed + rest),
                None => None,
            }
        }
    }
}

/// The number of CPUs a cpulist lists.
pub open spec fn cpulist_count(data: Seq<u8>) -> Option<int> {
    cpulist_count_from(data, 0)
}

/// A cpulist whose count fits in a `u32`: the inputs that `count_cpulist`
/// counts without overflow and without looping.
pub open spec fn cpulist_countable(data: Seq<u8>) -> bool {
    cpulist_count(data) matches Some(c) && c <= u32::MAX
}

proof fn lemma_count_from_nonneg(data: Seq<u8>, i: int)
    requires
        cpulist_count_from(data, i) is Some,
    ensures
        cpulist_count_from(data, i).unwrap() >= 0,
    decreases data.len() - i,
{
    if i < data.len() {
        let (next, listed, sound) = cpulist_item(data, i);
        lemma_count_from_nonneg(data, next);
    }
}

proof fn lemma_number_bounds(data: Seq<u8>, i: int)
    requires
        0 <= i <= data.len(),
    ensures
        i <= number_end(data, i) <= data.len(),
        number_end(data, i) < data.len() ==> !is_digit(data[number_end(data, i)]),
        forall|j: int| i <= j < number_end(data, i) ==> is_digit(#[trigger] data[j]),
{
    let s = data.skip(i);
    lemma_digit_run(s);
    assert forall|j: int| i <= j < number_end(data, i) implies is_digit(#[trigger] data[j]) by {
        assert(data[j] == s[j - i]);
    }
    if number_end(data, i) < data.len() {
        assert(data[number_end(data, i)] == s[digit_run_len(s) as int]);
    }
}

/// Parses the decimal number at `*i` in `data` and moves `*i` past it.
pub fn parse_num(data: &[u8], i: &mut usize) -> (n: u32)
    requires
        *old(i) <= data.len(),
        number_at(data@, *old(i) as int) <= u32::MAX,
    ensures
        *final(i) == number_end(data@, *old(i) as int),
        n == number_at(data@, *old(i) as int),
{
    let ghost start = *i as int;
    let ghost s = data@.skip(start);
    let ghost run = digit_run_len(s);
    proof {
        lemma_digit_run(s);
        lemma_number_bounds(data@, start);
        assert(s.take(run as int).take(0) =~= Seq::<u8>::empty());
    }
    let mut n: u32 = 0;
    while *i < data.len() && 48u8 <= data[*i] && data[*i] <= 57u8
        invariant
            0 <= start <= *i <= number_end(data@, start),
            number_end(data@, start) <= data.len(),
            s == data@.skip(start),
            run == digit_run_len(s),
            s.len() == data@.len() - start,
            forall|j: int| 0 <= j < run ==> is_digit(#[trigger] s[j]),
            run < s.len() ==> !is_digit(s[run as int]),
            n == digits_value(s.take(run as int).take(*i - start)),
            leading_number(s) <= u32::MAX,
        decreases data.len() - *i,
    {
        let ghost k = *i - start;
        proof {
            assert(k < run) by {
                if k >= run {
                    assert(k == run);
                    assert(s[run as int] == data@[*i as int]);
                }
            }
            let t = s.take(run as int);
            assert(t.take(k + 1) =~= t.take(k).push(t[k]));
            lemma_digits_value_push(t.take(k), t[k]);
            assert forall|j: int| 0 <= j < t.len() implies is_digit(#[trigger] t[j]) by {
                assert(t[j] == s[j]);
            }
            lemma_digits_value_prefix(t, k + 1);
            assert(t[k] == data@[*i as int]);
        }
        n = n * 10 + (data[*i] - 48u8) as u32;
        *i = *i + 1;
    }
    proof {
        let k = *i - start;
        if k < run {
            assert(s[k] == data@[*i as int]);
        }
        assert(s.take(run as int).take(run as int) =~= s.take(run as int));
    }
    n
}

/// Counts the CPUs listed in a cpulist such as `0-3,8-11` (the contents of
/// a sysfs cpulist file).
pub fn count_cpulist(data: &[u8]) -> (count: u32)
    requires
        cpulist_countable(data@),
    ensures
        count == cpulist_count(data@).unwrap(),
{
    let ghost total = cpulist_count(data@).unwrap();
    let mut count: u32 = 0;
    let mut i: usize = 0;
    while i < data.len()
        invariant
            i <= data.len(),
            cpulist_count_from(data@, i as int) is Some,
            count + cpulist_count_from(data@, i as int).unwrap() == total,
            total <= u32::MAX,
        decreases data.len() - i,
    {
        let ghost i0 = i as int;
        let ghost item = cpulist_item(data@, i0);
        proof {
            lemma_number_bounds(data@, i0);
            lemma_count_from_nonneg(data@, item.0);
        }
        let start = parse_num(data, &mut i);
        if i < data.len() && data[i] == 45u8 {
            i = i + 1;
            proof {
                lemma_number_bounds(data@, i as int);
            }
            let end = parse_num(data, &mut i);
            count = count + (end - start + 1);
        } else {
            count = count + 1;
        }
        if i < data.len() && (data[i] == 44u8 || data[i] == 10u8) {
            i = i + 1;
        }
        proof {
            assert(i == item.0);
        }
    }
    count
}

/// Whether the number at `i` in `data` fits in a `u32`.
fn number_fits_u32(data: &[u8], i: usize) -> (r: bool)
    requires
        i <= data.len(),
    ensures
        r == (number_at(data@, i as int) <= u32::MAX),
{
    let rest = &data[i..data.len()];
    proof {
        assert(rest@ =~= data@.skip(i as int));
    }
    if !fits_u64(rest) {
        return false;
    }
    parse_u64_fast(rest) <= 4294967295u64
}

/// Counts the CPUs of a cpulist as `count_cpulist` does, or gives `None` on
/// a cpulist that it cannot count: one with a number or a count beyond a
/// `u32`, a descending range, or an item that the scan cannot get past.
pub fn try_count_cpulist(data: &[u8]) -> (r: Option<u32>)
    ensures
        r is Some <==> cpulist_countable(data@),
        r matches Some(c) ==> c == cpulist_count(data@).unwrap(),
{
    let mut count: u32 = 0;
    let mut i: usize = 0;
    while i < data.len()
        invariant
            i <= data.len(),
            cpulist_count(data@) == (match cpulist_count_from(data@, i as int) {
                Some(rest) => Some(count + rest),
                None => None::<int>,
            }),
        decreases data.len() - i,
    {
        let i0 = i;
        let ghost item = cpulist_item(data@, i0 as int);
        proof {
            lemma_number_bounds(data@, i0 as int);
        }
        if !number_fits_u32(data, i) {
            return None;
        }
        let start = parse_num(data, &mut i);
        let mut listed: u64 = 1;
        if i < data.len() && data[i] == 45u8 {
            i = i + 1;
            proof {
                lemma_number_bounds(data@, i as int);
            }
            if !number_fits_u32(data, i) {
                return None;
            }
            let end = parse_num(data, &mut i);
            if end < start {
                return None;
            }
            listed = (end - start) as u64 + 1;
        }
        if i < data.len() && (data[i] == 44u8 || data[i] == 10u8) {
            i = i + 1;
        }
        proof {
            assert(i == item.0);
            assert(listed == item.1);
        }
        if i <= i0 {
            return None;
        }
        if count as u64 + listed > 4294967295u64 {
            proof {
                if cpulist_count_from(data@, item.0) is Some {
                    lemma_count_from_nonneg(data@, item.0);
                }
            }
            return None;
        }
        count = (count as u64 + listed) as u32;
    }
    Some(count)
}

/// A byte that a kernel cpulist is written with: a digit, '-', ',' or '\n'.
pub open spec fn is_cpulist_byte(b: u8) -> bool {
    is_digit(b) || b == 45 || b == 44 || b == 10
}

/// Every item of the cpulist `data` from `i` on can be counted in 32-bit
/// arithmetic: its numbers fit in a `u32` and its range, if any, ascends.
pub open spec fn cpulist_sound_from(data: Seq<u8>, i: int) -> bool
    decreases data.len() - i,
{
    if i >= data.len() {
        true
    } else {
        let (next, _, sound) = cpulist_item(data, i);
        sound && (i < next <= data.len() ==> cpulist_sound_from(data, next))
    }
}

/// On a cpulist written only with digits, '-', ',' and '\n', each item moves
/// the scan forward and not past the end.
proof fn lemma_cpulist_progress(data: Seq<u8>, i: int)
    requires
        0 <= i < data.len(),
        forall|j: int| 0 <= j < data.len() ==> is_cpulist_byte(#[trigger] data[j]),
    ensures
        i < cpulist_item(data, i).0 <= data.len(),
{
    lemma_number_bounds(data, i);
    let a_end = number_end(data, i);
    assert(is_cpulist_byte(data[i]));
    if a_end < data.len() && data[a_end] == 45 {
        lemma_number_bounds(data, a_end + 1);
    }
}

proof fn lemma_cpulist_counted_from(data: Seq<u8>, i: int)
    requires
        0 <= i <= data.len(),
        forall|j: int| 0 <= j < data.len() ==> is_cpulist_byte(#[trigger] data[j]),
        cpulist_sound_from(data, i),
    ensures
        cpulist_count_from(data, i) is Some,
    decreases data.len() - i,
{
    if i < data.len() {
        lemma_cpulist_progress(data, i);
        lemma_cpulist_counted_from(data, cpulist_item(data, i).0);
    }
}

/// A cpulist written only with digits, '-', ',' and '\n' whose numbers fit
/// in a `u32` and whose ranges ascend (as the kernel writes them) is always
/// scanned to its end: it has a count, and `count_cpulist` and
/// `try_count_cpulist` give it whenever it fits in a `u32`.
pub proof fn lemma_cpulist_counted(data: Seq<u8>)
    requires
        forall|j: int| 0 <= j < data.len() ==> is_cpulist_byte(#[trigger] data[j]),
        cpulist_sound_from(data, 0),
    ensures
        cpulist_count(data) is Some,
        cpulist_count(data).unwrap() <= u32::MAX ==> cpulist_countable(data),
{
    lemma_cpulist_counted_from(data, 0);
}

// ---------------------------------------------------------------------------
// Threads and cores
// ---------------------------------------------------------------------------

/// The number of set bits of `x`.
pub open spec fn popcount(x: nat) -> nat
    decreases x,
{
    if x == 0 {
        0
    } else {
        x % 2 + popcount(x / 2)
    }
}

/// The number of set bits in all bytes of `s`.
pub open spec fn mask_bits(s: Seq<u8>) -> nat
    decreases s.len(),
{
    if s.len() == 0 {
        0
    } else {
        mask_bits(s.drop_last()) + popcount(s.last() as nat)
    }
}

proof fn lemma_popcount_bound(x: nat, k: nat)
    requires
        x < vstd::arithmetic::power2::pow2(k),
    ensures
        popcount(x) <= k,
    decreases k,
{
    if x > 0 {
        if k == 0 {
            vstd::arithmetic::power2::lemma2_to64();
        } else {
            vstd::arithmetic::power2::lemma_pow2_unfold(k);
            lemma_popcount_bound(x / 2, (k - 1) as nat);
        }
    }
}

/// Counts the set bits of `b`.
pub fn count_ones(b: u8) -> (r: u32)
    ensures
        r == popcount(b as nat),
        r <= 8,
{
    let mut x: u8 = b;
    let mut r: u32 = 0;
    proof {
        vstd::arithmetic::power2::lemma2_to64();
        lemma_popcount_bound(b as nat, 8);
    }
    while x > 0
        invariant
            r + popcount(x as nat) == popcount(b as nat),
            popcount(b as nat) <= 8,
        decreases x,
    {
        r = r + (x % 2) as u32;
        x = x / 2;
    }
    r
}

/// Counts the online threads from the result of `sched_getaffinity(2)`:
/// `ret` is the number of mask bytes the kernel filled in, or a negated
/// error number, which is returned as the error.
pub fn get_thread_count(ret: i32, mask: &[u8; 128]) -> (r: Result<u32, i32>)
    requires
        ret > i32::MIN,
        ret <= 128,
    ensures
        ret < 0 ==> r == Err::<u32, i32>((-ret) as i32),
        ret >= 0 ==> (r matches Ok(c) && c == mask_bits(mask@.take(ret as int))),
{
    if ret < 0 {
        return Err(-ret);
    }
    let bytes = ret as usize;
    let mut count: u32 = 0;
    let mut k: usize = 0;
    while k < bytes
        invariant
            bytes <= 128,
            k <= bytes,
            count == mask_bits(mask@.take(k as int)),
            count <= 8 * k,
        decreases bytes - k,
    {
        let c = count_ones(mask[k]);
        proof {
            assert(mask@.take(k + 1).drop_last() =~= mask@.take(k as int));
        }
        count = count + c;
        k = k + 1;
    }
    Ok(count)
}

/// Counting one more mask byte adds the set bits of that byte, whatever its
/// position in the mask.
pub proof fn lemma_mask_bits_push(s: Seq<u8>, b: u8)
    ensures
        mask_bits(s.push(b)) == mask_bits(s) + popcount(b as nat),
{
    assert(s.push(b).drop_last() =~= s);
}

/// The set bits of two stretches of the mask add up.
pub proof fn lemma_mask_bits_concat(s: Seq<u8>, t: Seq<u8>)
    ensures
        mask_bits(s + t) == mask_bits(s) + mask_bits(t),
    decreases t.len(),
{
    if t.len() == 0 {
        assert(s + t =~= s);
    } else {
        lemma_mask_bits_concat(s, t.drop_last());
        assert((s + t).drop_last() =~= s + t.drop_last());
    }
}

/// A byte has between none and eight set bits: none for 0, eight for 0xff.
pub proof fn lemma_popcount_byte(b: u8)
    ensures
        popcount(b as nat) <= 8,
        b == 0 ==> popcount(b as nat) == 0,
        b == 255 ==> popcount(b as nat) == 8,
{
    vstd::arithmetic::power2::lemma2_to64();
    lemma_popcount_bound(b as nat, 8);
    if b == 255 {
        reveal_with_fuel(popcount, 9);
    }
}

/// The set bits of a byte are its eight bits added up.
pub proof fn lemma_popcount_is_bit_sum(b: u8)
    ensures
        popcount(b as nat) == (b & 1) + ((b >> 1u8) & 1) + ((b >> 2u8) & 1) + ((b >> 3u8) & 1) + ((
        b >> 4u8) & 1) + ((b >> 5u8) & 1) + ((b >> 6u8) & 1) + ((b >> 7u8) & 1),
{
    reveal_with_fuel(popcount, 9);
    assert({
        &&& b % 2 == b & 1
        &&& (b / 2) % 2 == (b >> 1u8) & 1
        &&& (b / 2 / 2) % 2 == (b >> 2u8) & 1
        &&& (b / 2 / 2 / 2) % 2 == (b >> 3u8) & 1
        &&& (b / 2 / 2 / 2 / 2) % 2 == (b >> 4u8) & 1
        &&& (b / 2 / 2 / 2 / 2 / 2) % 2 == (b >> 5u8) & 1
        &&& (b / 2 / 2 / 2 / 2 / 2 / 2) % 2 == (b >> 6u8) & 1
        &&& (b / 2 / 2 / 2 / 2 / 2 / 2 / 2) % 2 == (b >> 7u8) & 1
        &&& b / 2 / 2 / 2 / 2 / 2 / 2 / 2 / 2 == 0
    }) by (bit_vector);
}

/// A mask whose bytes are all 0xff lists eight threads per byte.
pub proof fn lemma_mask_bits_full(s: Seq<u8>)
    requires
        forall|j: int| 0 <= j < s.len() ==> #[trigger] s[j] == 255,
    ensures
        mask_bits(s) == 8 * s.len(),
    decreases s.len(),
{
    if s.len() > 0 {
        assert forall|j: int| 0 <= j < s.drop_last().len() implies #[trigger] s.drop_last()[j] == 255 by {
            assert(s.drop_last()[j] == s[j]);
        }
        lemma_mask_bits_full(s.drop_last());
        lemma_popcount_byte(s.last());
    }
}

/// The number of physical cores for `threads` threads and an SMT width.
pub open spec fn core_count(threads: nat, smt_width: Option<u32>) -> nat {
    match smt_width {
        Some(w) => if w != 0 {
            threads / (w as nat)
        } else {
            threads
        },
        None => threads,
    }
}

/// The number of physical cores: the thread count divided by the SMT width
/// (the number of CPUs in the first core's sibling list), or the thread
/// count itself when that width is unknown or zero.
pub fn get_core_count(threads: u32, smt_width: Option<u32>) -> (r: u32)
    ensures
        r == core_count(threads as nat, smt_width),
{
    match smt_width {
        None => threads,
        Some(w) => {
            if w == 0 {
                threads
            } else {
                threads / w
            }
        },
    }
}

/// The performance and efficiency core counts of a hybrid CPU, from the
/// counts of the `cpu_core` and `cpu_atom` PMU cpulists: none when the
/// `cpu_core` list is missing or both counts are zero; a missing `cpu_atom`
/// list counts as zero.
pub fn get_pe_cores(p_cores: Option<u32>, e_cores: Option<u32>) -> (r: Option<(u32, u32)>)
    ensures
        r == (match p_cores {
            None => None,
            Some(p) => {
                let e = match e_cores {
                    Some(e) => e,
                    None => 0,
                };
                if p > 0 || e > 0 {
                    Some((p, e))
                } else {
                    None
                }
            },
        }),
{
    let p = match p_cores {
        Some(p) => p,
        None => return None,
    };
    let e = match e_cores {
        Some(e) => e,
        None => 0,
    };
    if p > 0 || e > 0 {
        Some((p, e))
    } else {
        None
    }
}

/// The core summary text: `{cores} cores`, then ` ({p}p/{e}e)` on a hybrid
/// CPU, then `, {threads} threads`.
pub open spec fn cores_text(cores: nat, threads: nat, pe: Option<(u32, u32)>) -> Seq<char> {
    decimal(cores) + " cores"@ + (match pe {
        Some((p, e)) => " ("@ + decimal(p as nat) + "p/"@ + decimal(e as nat) + "e)"@,
        None => Seq::empty(),
    }) + ", "@ + decimal(threads) + " threads"@
}

/// Describes the CPU's cores and threads from the affinity mask (see
/// `get_thread_count`), the SMT width and the hybrid core counts; fails
/// with the error of the affinity call.
pub fn get_cpu_cores(
    affinity_ret: i32,
    mask: &[u8; 128],
    smt_width: Option<u32>,
    p_cores: Option<u32>,
    e_cores: Option<u32>,
) -> (r: Result<String, i32>)
    requires
        affinity_ret > i32::MIN,
        affinity_ret <= 128,
    ensures
        affinity_ret < 0 ==> r == Err::<String, i32>((-affinity_ret) as i32),
        affinity_ret >= 0 ==> (r matches Ok(s) && {
            let threads = mask_bits(mask@.take(affinity_ret as int));
            let cores = core_count(threads, smt_width);
            s@ == cores_text(cores, threads, get_pe_cores_spec(p_cores, e_cores))
        }),
{
    let threads = match get_thread_count(affinity_ret, mask) {
        Ok(t) => t,
        Err(e) => return Err(e),
    };
    let cores = get_core_count(threads, smt_width);
    assert(threads == mask_bits(mask@.take(affinity_ret as int)));

    let mut result = String::new();
    write_u64(&mut result, cores as u64);
    result.append(" cores");

    let pe = get_pe_cores(p_cores, e_cores);
    if let Some((p, e)) = pe {
        result.append(" (");
        write_u64(&mut result, p as u64);
        result.append("p/");
        write_u64(&mut result, e as u64);
        result.append("e)");
    }
    let ghost after_pe = result@;

    result.append(", ");
    write_u64(&mut result, threads as u64);
    result.append(" threads");
    proof {
        assert(pe == get_pe_cores_spec(p_cores, e_cores));
        let c = cores as nat;
        let t = threads as nat;
        assert(after_pe =~= decimal(c) + " cores"@ + (match pe {
            Some((p, e)) => " ("@ + decimal(p as nat) + "p/"@ + decimal(e as nat) + "e)"@,
            None => Seq::empty(),
        }));
        assert(result@ =~= cores_text(c, t, pe));
    }
    Ok(result)
}

/// What `get_pe_cores` returns.
pub open spec fn get_pe_cores_spec(p_cores: Option<u32>, e_cores: Option<u32>) -> Option<(u32, u32)> {
    match p_cores {
        None => None,
        Some(p) => {
            let e = match e_cores {
                Some(e) => e,
                None => 0,
            };
            if p > 0 || e > 0 {
                Some((p, e))
            } else {
                None
            }
        },
    }
}

} // verus!
