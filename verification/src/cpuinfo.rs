//! The CPU model name and frequency, read from the contents of
//! `/proc/cpuinfo` and of the sysfs `cpuinfo_max_freq` file.

use vstd::prelude::*;
use vstd::string::*;
use vstd::utf8::{
    valid_utf8, decode_utf8, is_char_boundary, is_continuation_byte,
    is_char_boundary_iff_not_is_continuation_byte, is_char_boundary_start_end_of_seq,
    valid_utf8_split, encode_utf8_decode_utf8, decode_utf8_encode_utf8,
};
use crate::text::{
    decimal, has_prefix, has_suffix_at, is_ascii_space, is_digit, line_len, find_line_end,
    starts_with, ends_with_at, utf8_str, write_u64, push_char, digit_char,
    scattered_digits_value, run_len, lemma_run_len_from, decimal_bytes, lemma_decimal_bytes_digits,
    lemma_scattered_all_digits,
};

verus! {

// ---------------------------------------------------------------------------
// Fields of /proc/cpuinfo
// ---------------------------------------------------------------------------

/// Space or tab.
pub open spec fn is_blank(b: u8) -> bool {
    b == 32 || b == 9
}

/// Space.
pub open spec fn is_space(b: u8) -> bool {
    b == 32
}

/// Moves `p` forward over the bytes of `line` that satisfy `f`, where
/// `f` is spaces and tabs when `blanks` holds and spaces alone otherwise.
fn skip_run(line: &[u8], p: usize, blanks: bool) -> (r: usize)
    requires
        p <= line.len(),
    ensures
        r == p + run_len(line@.skip(p as int), if blanks { |b: u8| is_blank(b) } else { |b: u8| is_space(b) }),
        r <= line.len(),
{
    let ghost f: spec_fn(u8) -> bool = if blanks { |b: u8| is_blank(b) } else { |b: u8| is_space(b) };
    let ghost s = line@.skip(p as int);
    let mut q: usize = p;
    while q < line.len() && (line[q] == 32u8 || (blanks && line[q] == 9u8))
        invariant
            p <= q <= line.len(),
            s == line@.skip(p as int),
            f == (if blanks { |b: u8| is_blank(b) } else { |b: u8| is_space(b) }),
            forall|j: int| 0 <= j < q - p ==> f(#[trigger] s[j]),
        decreases line.len() - q,
    {
        proof {
            assert(s[q - p] == line@[q as int]);
        }
        q = q + 1;
    }
    proof {
        lemma_run_len_from(s, f, q - p);
        assert(s.skip(q - p) =~= line@.skip(q as int));
        if q < line.len() {
            assert(line@.skip(q as int)[0] == line@[q as int]);
        }
    }
    q
}

/// The value of `key` on one line of cpuinfo: the line starts with `key`,
/// then spaces or tabs, then ':'; the value is what follows the ':' and the
/// spaces after it.
pub open spec fn line_field(line: Seq<u8>, key: Seq<u8>) -> Option<Seq<u8>> {
    if has_prefix(line, key) {
        let p = key.len() + run_len(line.skip(key.len() as int), |b: u8| is_blank(b));
        if p < line.len() && line[p as int] == 58 {
            let q = p + 1 + run_len(line.skip((p + 1) as int), |b: u8| is_space(b));
            Some(line.skip(q as int))
        } else {
            None
        }
    } else {
        None
    }
}

/// The value bytes of the first line of `data` that holds a field `key`.
pub open spec fn field_value(data: Seq<u8>, key: Seq<u8>) -> Option<Seq<u8>>
    decreases data.len(),
{
    if data.len() == 0 {
        None
    } else {
        let e = line_len(data);
        match line_field(data.take(e as int), key) {
            Some(v) => Some(v),
            None => if e < data.len() {
                field_value(data.skip((e + 1) as int), key)
            } else {
                None
            },
        }
    }
}

/// What `extract_field` returns: the value of the first `key` field, when
/// it is well-formed UTF-8.
pub open spec fn extract_field_spec(data: Seq<u8>, key: Seq<u8>) -> Option<Seq<char>> {
    match field_value(data, key) {
        Some(v) => if valid_utf8(v) {
            Some(decode_utf8(v))
        } else {
            None
        },
        None => None,
    }
}

/// Extracts the value of the first occurrence of the field `key` in
/// cpuinfo `data`; `None` when no line holds it or the value is not UTF-8.
pub fn extract_field<'a>(data: &'a [u8], key: &[u8]) -> (r: Option<&'a str>)
    ensures
        r is Some <==> extract_field_spec(data@, key@) is Some,
        r matches Some(s) ==> s@ == extract_field_spec(data@, key@).unwrap(),
        r matches Some(s) ==> s.spec_bytes() == field_value(data@, key@).unwrap(),
{
    let mut i: usize = 0;
    proof {
        assert(data@.skip(0) =~= data@);
    }
    while i < data.len()
        invariant
            i <= data.len(),
            field_value(data@, key@) == field_value(data@.skip(i as int), key@),
        decreases data.len() - i,
    {
        let ghost rest = data@.skip(i as int);
        let e = find_line_end(data, i);
        let line = &data[i..e];
        proof {
            assert(line@ =~= rest.take(line_len(rest) as int));
        }
        if starts_with(line, key) {
            let p = skip_run(line, key.len(), true);
            if p < line.len() && line[p] == 58u8 {
                let q = skip_run(line, p + 1, false);
                let value = &line[q..line.len()];
                proof {
                    assert(value@ =~= line@.skip(q as int));
                }
                let r = utf8_str(value);
                proof {
                    if let Some(s) = r {
                        decode_utf8_encode_utf8(value@);
                    }
                }
                return r;
            }
        }
        if e >= data.len() {
            return None;
        }
        proof {
            assert(rest.skip((line_len(rest) + 1) as int) =~= data@.skip(e + 1));
        }
        i = e + 1;
    }
    None
}

// ---------------------------------------------------------------------------
// Trimming model names
// ---------------------------------------------------------------------------

/// `end` moved back over trailing ASCII whitespace of `b[..end]`.
pub open spec fn strip_spaces_end(b: Seq<u8>, end: int) -> int
    decreases end,
{
    if end > 0 && is_ascii_space(b[end - 1]) {
        strip_spaces_end(b, end - 1)
    } else {
        end
    }
}

/// `end` moved back over trailing digits of `b[..end]`.
pub open spec fn strip_digits_end(b: Seq<u8>, end: int) -> int
    decreases end,
{
    if end > 0 && is_digit(b[end - 1]) {
        strip_digits_end(b, end - 1)
    } else {
        end
    }
}

/// The first index before `end` that is not ASCII whitespace, counting
/// from `start`.
pub open spec fn strip_spaces_start(b: Seq<u8>, start: int, end: int) -> int
    decreases end - start,
{
    if start < end && is_ascii_space(b[start]) {
        strip_spaces_start(b, start + 1, end)
    } else {
        start
    }
}

/// The end of a model name once trailing whitespace, a " Processor" or
/// " CPU" suffix, a "(R)", "(TM)" or "(tm)" mark and an " N-Core" suffix are
/// removed, in that order.
pub open spec fn trim_end(b: Seq<u8>) -> int {
    let e1 = strip_spaces_end(b, b.len() as int);
    let e2 = if has_suffix_at(b, e1, " Processor".spec_bytes()) {
        e1 - " Processor".spec_bytes().len()
    } else if has_suffix_at(b, e1, " CPU".spec_bytes()) {
        e1 - " CPU".spec_bytes().len()
    } else {
        e1
    };
    let e3 = strip_spaces_end(b, e2);
    let e4 = if has_suffix_at(b, e3, "(R)".spec_bytes()) {
        e3 - "(R)".spec_bytes().len()
    } else if has_suffix_at(b, e3, "(TM)".spec_bytes()) {
        e3 - "(TM)".spec_bytes().len()
    } else if has_suffix_at(b, e3, "(tm)".spec_bytes()) {
        e3 - "(tm)".spec_bytes().len()
    } else {
        e3
    };
    let e5 = strip_spaces_end(b, e4);
    let e6 = if e5 > 7 && has_suffix_at(b, e5, "-Core".spec_bytes()) {
        let p = strip_digits_end(b, e5 - "-Core".spec_bytes().len());
        if p > 0 && b[p - 1] == 32 {
            p - 1
        } else {
            e5
        }
    } else {
        e5
    };
    strip_spaces_end(b, e6)
}

/// The start of a trimmed model name: past its leading whitespace.
pub open spec fn trim_start(b: Seq<u8>) -> int {
    strip_spaces_start(b, 0, trim_end(b))
}

fn strip_spaces_back(b: &[u8], end: usize) -> (r: usize)
    requires
        end <= b.len(),
    ensures
        r == strip_spaces_end(b@, end as int),
        r <= end,
        r < end ==> forall|j: int| r <= j < end ==> is_ascii_space(#[trigger] b@[j]),
{
    let mut e = end;
    while e > 0 && (b[e - 1] == 32u8 || b[e - 1] == 9u8 || b[e - 1] == 10u8 || b[e - 1] == 12u8
        || b[e - 1] == 13u8)
        invariant
            e <= end <= b.len(),
            strip_spaces_end(b@, e as int) == strip_spaces_end(b@, end as int),
            forall|j: int| e <= j < end ==> is_ascii_space(#[trigger] b@[j]),
        decreases e,
    {
        e = e - 1;
    }
    e
}

proof fn lemma_strip_spaces_end_bounds(b: Seq<u8>, end: int)
    requires
        0 <= end <= b.len(),
    ensures
        0 <= strip_spaces_end(b, end) <= end,
        forall|j: int| strip_spaces_end(b, end) <= j < end ==> is_ascii_space(#[trigger] b[j]),
    decreases end,
{
    if end > 0 && is_ascii_space(b[end - 1]) {
        lemma_strip_spaces_end_bounds(b, end - 1);
    }
}

proof fn lemma_strip_digits_end_bounds(b: Seq<u8>, end: int)
    requires
        0 <= end <= b.len(),
    ensures
        0 <= strip_digits_end(b, end) <= end,
        forall|j: int| strip_digits_end(b, end) <= j < end ==> is_digit(#[trigger] b[j]),
    decreases end,
{
    if end > 0 && is_digit(b[end - 1]) {
        lemma_strip_digits_end_bounds(b, end - 1);
    }
}

proof fn lemma_strip_spaces_start_bounds(b: Seq<u8>, start: int, end: int)
    requires
        0 <= start <= end <= b.len(),
    ensures
        start <= strip_spaces_start(b, start, end) <= end,
        forall|j: int| start <= j < strip_spaces_start(b, start, end) ==> is_ascii_space(
            #[trigger] b[j],
        ),
    decreases end - start,
{
    if start < end && is_ascii_space(b[start]) {
        lemma_strip_spaces_start_bounds(b, start + 1, end);
    }
}

/// A byte below 0x80 (an ASCII character) is never a UTF-8 continuation byte.
proof fn lemma_ascii_not_continuation(x: u8)
    requires
        x < 128,
    ensures
        !is_continuation_byte(x),
{
    assert(x & 0xc0 != 0x80) by (bit_vector)
        requires
            x < 128,
    ;
}

/// In well-formed UTF-8, an index preceded only by ASCII bytes is a
/// character boundary.
proof fn lemma_ascii_prefix_boundary(b: Seq<u8>, k: int)
    requires
        valid_utf8(b),
        0 <= k <= b.len(),
        forall|j: int| 0 <= j < k ==> #[trigger] b[j] < 128,
    ensures
        is_char_boundary(b, k),
{
    if k == b.len() {
        is_char_boundary_start_end_of_seq(b);
    } else {
        assert(b[k] < 128 || k > 0 || k == 0);
        if k == 0 {
            is_char_boundary_start_end_of_seq(b);
        } else {
            // the byte at k follows an ASCII byte: it cannot continue a
            // multi-byte character
            lemma_boundary_after_ascii(b, k);
        }
    }
}

proof fn lemma_boundary_after_ascii(b: Seq<u8>, k: int)
    requires
        valid_utf8(b),
        0 < k < b.len(),
        forall|j: int| 0 <= j < k ==> #[trigger] b[j] < 128,
    ensures
        is_char_boundary(b, k),
    decreases k,
{
    reveal_with_fuel(is_char_boundary, 2);
    reveal_with_fuel(valid_utf8, 2);
    let tail = vstd::utf8::pop_first_scalar(b);
    assert(b[0] < 128);
    assert(vstd::utf8::length_of_first_scalar(b) == 1) by {
        reveal(vstd::utf8::length_of_first_scalar);
    }
    assert(tail =~= b.subrange(1, b.len() as int));
    if k - 1 == 0 {
        is_char_boundary_start_end_of_seq(tail);
    } else {
        assert forall|j: int| 0 <= j < k - 1 implies #[trigger] tail[j] < 128 by {
            assert(tail[j] == b[j + 1]);
        }
        lemma_boundary_after_ascii(tail, k - 1);
    }
}

proof fn lemma_strip_spaces_end_stops(b: Seq<u8>, end: int)
    requires
        0 <= end <= b.len(),
    ensures
        strip_spaces_end(b, end) > 0 ==> !is_ascii_space(b[strip_spaces_end(b, end) - 1]),
    decreases end,
{
    if end > 0 && is_ascii_space(b[end - 1]) {
        lemma_strip_spaces_end_stops(b, end - 1);
    }
}

proof fn lemma_strip_spaces_start_stops(b: Seq<u8>, start: int, end: int)
    requires
        0 <= start <= end <= b.len(),
    ensures
        strip_spaces_start(b, start, end) < end ==> !is_ascii_space(
            b[strip_spaces_start(b, start, end)],
        ),
    decreases end - start,
{
    if start < end && is_ascii_space(b[start]) {
        lemma_strip_spaces_start_stops(b, start + 1, end);
    }
}

/// A trimmed model name neither begins nor ends with ASCII whitespace.
pub proof fn lemma_trim_no_surrounding_space(b: Seq<u8>)
    ensures
        0 <= trim_start(b) <= trim_end(b) <= b.len(),
        trim_start(b) < trim_end(b) ==> !is_ascii_space(b[trim_start(b)]) && !is_ascii_space(
            b[trim_end(b) - 1],
        ),
{
    lemma_trim_patterns_ascii();
    let e1 = strip_spaces_end(b, b.len() as int);
    lemma_strip_spaces_end_bounds(b, b.len() as int);
    let e2 = if has_suffix_at(b, e1, " Processor".spec_bytes()) {
        e1 - " Processor".spec_bytes().len()
    } else if has_suffix_at(b, e1, " CPU".spec_bytes()) {
        e1 - " CPU".spec_bytes().len()
    } else {
        e1
    };
    lemma_strip_spaces_end_bounds(b, e2);
    let e3 = strip_spaces_end(b, e2);
    let e4 = if has_suffix_at(b, e3, "(R)".spec_bytes()) {
        e3 - "(R)".spec_bytes().len()
    } else if has_suffix_at(b, e3, "(TM)".spec_bytes()) {
        e3 - "(TM)".spec_bytes().len()
    } else if has_suffix_at(b, e3, "(tm)".spec_bytes()) {
        e3 - "(tm)".spec_bytes().len()
    } else {
        e3
    };
    lemma_strip_spaces_end_bounds(b, e4);
    let e5 = strip_spaces_end(b, e4);
    if e5 > 7 && has_suffix_at(b, e5, "-Core".spec_bytes()) {
        lemma_strip_digits_end_bounds(b, e5 - "-Core".spec_bytes().len());
    }
    let e6 = if e5 > 7 && has_suffix_at(b, e5, "-Core".spec_bytes()) {
        let p = strip_digits_end(b, e5 - "-Core".spec_bytes().len());
        if p > 0 && b[p - 1] == 32 {
            p - 1
        } else {
            e5
        }
    } else {
        e5
    };
    lemma_strip_spaces_end_bounds(b, e6);
    lemma_strip_spaces_end_stops(b, e6);
    lemma_strip_spaces_start_bounds(b, 0, trim_end(b));
    lemma_strip_spaces_start_stops(b, 0, trim_end(b));
}

/// Every byte of the suffixes that `trim` removes is ASCII.
proof fn lemma_trim_patterns_ascii()
    ensures
        forall|j: int| 0 <= j < " Processor".spec_bytes().len() ==> #[trigger] " Processor".spec_bytes()[j] < 128,
        forall|j: int| 0 <= j < " CPU".spec_bytes().len() ==> #[trigger] " CPU".spec_bytes()[j] < 128,
        forall|j: int| 0 <= j < "(R)".spec_bytes().len() ==> #[trigger] "(R)".spec_bytes()[j] < 128,
        forall|j: int| 0 <= j < "(TM)".spec_bytes().len() ==> #[trigger] "(TM)".spec_bytes()[j] < 128,
        forall|j: int| 0 <= j < "(tm)".spec_bytes().len() ==> #[trigger] "(tm)".spec_bytes()[j] < 128,
        " Processor".spec_bytes().len() == 10,
        " CPU".spec_bytes().len() == 4,
        "(R)".spec_bytes().len() == 3,
        "(TM)".spec_bytes().len() == 4,
        "(tm)".spec_bytes().len() == 4,
{
    broadcast use vstd::string::is_ascii_spec_bytes;

    reveal_strlit(" Processor");
    reveal_strlit(" CPU");
    reveal_strlit("(R)");
    reveal_strlit("(TM)");
    reveal_strlit("(tm)");
    assert(is_ascii(" Processor"));
    assert(is_ascii(" CPU"));
    assert(is_ascii("(R)"));
    assert(is_ascii("(TM)"));
    assert(is_ascii("(tm)"));
}

/// `e` is the end of `bs` or the index of an ASCII byte.
spec fn ascii_at(bs: Seq<u8>, e: int) -> bool {
    e == bs.len() || (0 <= e < bs.len() && bs[e] < 128)
}

/// Strips noise from a CPU model name: surrounding whitespace, a trailing
/// " Processor" or " CPU", a trademark mark and an " N-Core" suffix.
pub fn trim(name: &str) -> (r: &str)
    ensures
        r.spec_bytes() == name.spec_bytes().subrange(
            trim_start(name.spec_bytes()),
            trim_end(name.spec_bytes()),
        ),
        r@ == decode_utf8(name.spec_bytes().subrange(
            trim_start(name.spec_bytes()),
            trim_end(name.spec_bytes()),
        )),
{
    let b = name.as_bytes();
    let ghost bs = b@;
    proof {
        lemma_trim_patterns_ascii();
    }
    let processor = " Processor".as_bytes();
    let cpu = " CPU".as_bytes();
    let mut end = strip_spaces_back(b, b.len());
    assert(ascii_at(bs, end as int));
    if ends_with_at(b, end, processor) {
        end = end - processor.len();
        assert(bs[end as int] == processor@[0]);
    } else if ends_with_at(b, end, cpu) {
        end = end - cpu.len();
        assert(bs[end as int] == cpu@[0]);
    }
    assert(ascii_at(bs, end as int));
    end = strip_spaces_back(b, end);
    assert(ascii_at(bs, end as int));
    let registered = "(R)".as_bytes();
    let trademark = "(TM)".as_bytes();
    let trademark_lower = "(tm)".as_bytes();
    if ends_with_at(b, end, registered) {
        end = end - registered.len();
        assert(bs[end as int] == registered@[0]);
    } else if ends_with_at(b, end, trademark) {
        end = end - trademark.len();
        assert(bs[end as int] == trademark@[0]);
    } else if ends_with_at(b, end, trademark_lower) {
        end = end - trademark_lower.len();
        assert(bs[end as int] == trademark_lower@[0]);
    }
    assert(ascii_at(bs, end as int));
    end = strip_spaces_back(b, end);
    assert(ascii_at(bs, end as int));
    let core = "-Core".as_bytes();
    if end > 7 && ends_with_at(b, end, core) {
        let mut p = end - core.len();
        while p > 0 && 48u8 <= b[p - 1] && b[p - 1] <= 57u8
            invariant
                bs == b@,
                p <= end - core@.len(),
                core@.len() <= end <= b.len(),
                strip_digits_end(bs, p as int) == strip_digits_end(bs, end - core@.len()),
            decreases p,
        {
            p = p - 1;
        }
        if p > 0 && b[p - 1] == 32u8 {
            end = p - 1;
        }
    }
    assert(ascii_at(bs, end as int));
    end = strip_spaces_back(b, end);
    assert(ascii_at(bs, end as int));
    let mut start: usize = 0;
    while start < end && (b[start] == 32u8 || b[start] == 9u8 || b[start] == 10u8 || b[start]
        == 12u8 || b[start] == 13u8)
        invariant
            bs == b@,
            start <= end <= b.len(),
            forall|j: int| 0 <= j < start ==> is_ascii_space(#[trigger] bs[j]),
            strip_spaces_start(bs, start as int, end as int) == strip_spaces_start(
                bs,
                0,
                end as int,
            ),
        decreases end - start,
    {
        start = start + 1;
    }
    proof {
        assert(end == trim_end(bs));
        assert(start == trim_start(bs));
    }
    name_slice(name, start, end)
}

/// `name[start..end]`, where both ends are known to be character boundaries
/// because the bytes around them are ASCII.
fn name_slice(name: &str, start: usize, end: usize) -> (r: &str)
    requires
        start <= end <= name.spec_bytes().len(),
        forall|j: int| 0 <= j < start ==> #[trigger] name.spec_bytes()[j] < 128,
        end < name.spec_bytes().len() ==> name.spec_bytes()[end as int] < 128,
    ensures
        r.spec_bytes() == name.spec_bytes().subrange(start as int, end as int),
        r@ == decode_utf8(name.spec_bytes().subrange(start as int, end as int)),
{
    let ghost bs = name.spec_bytes();
    proof {
        encode_utf8_valid(name@);
        if end < bs.len() {
            lemma_ascii_not_continuation(bs[end as int]);
            is_char_boundary_iff_not_is_continuation_byte(bs, end as int);
        } else {
            is_char_boundary_start_end_of_seq(bs);
        }
    }
    let (head, _) = name.split_at(end);
    proof {
        valid_utf8_split(bs, end as int);
        let hb = head.spec_bytes();
        assert forall|j: int| 0 <= j < start implies #[trigger] hb[j] < 128 by {
            assert(hb[j] == bs[j]);
        }
        lemma_ascii_prefix_boundary(hb, start as int);
    }
    let (_, tail) = head.split_at(start);
    proof {
        assert(tail.spec_bytes() =~= bs.subrange(start as int, end as int));
        encode_utf8_decode_utf8(tail@);
    }
    tail
}

proof fn encode_utf8_valid(s: Seq<char>)
    ensures
        valid_utf8(vstd::utf8::encode_utf8(s)),
{
    vstd::utf8::encode_utf8_valid_utf8(s);
}

// ---------------------------------------------------------------------------
// Frequency
// ---------------------------------------------------------------------------

/// The bytes of `v` before its first '.'.
pub open spec fn before_dot(v: Seq<u8>) -> Seq<u8>
    decreases v.len(),
{
    if v.len() == 0 || v[0] == 46 {
        Seq::empty()
    } else {
        seq![v[0]] + before_dot(v.drop_first())
    }
}

/// The keys of the cpuinfo fields that may give the frequency in MHz, in
/// the order they are tried.
pub open spec fn mhz_keys() -> Seq<Seq<u8>> {
    seq![
        "cpu MHz".spec_bytes(),
        "cpu MHz dynamic".spec_bytes(),
        "cpu MHz static".spec_bytes(),
        "CPU MHz".spec_bytes(),
    ]
}

/// The whole MHz of the cpuinfo field `key`: the digits of its value before
/// the '.', other bytes skipped.
pub open spec fn field_mhz(data: Seq<u8>, key: Seq<u8>) -> Option<nat> {
    match extract_field_spec(data, key) {
        Some(_) => Some(scattered_digits_value(before_dot(field_value(data, key).unwrap()))),
        None => None,
    }
}

/// The first positive frequency given by the fields `keys` of `data`.
pub open spec fn cpuinfo_mhz(data: Seq<u8>, keys: Seq<Seq<u8>>) -> Option<nat>
    decreases keys.len(),
{
    if keys.len() == 0 {
        None
    } else {
        match field_mhz(data, keys[0]) {
            Some(m) => if m > 0 {
                Some(m)
            } else {
                cpuinfo_mhz(data, keys.drop_first())
            },
            None => cpuinfo_mhz(data, keys.drop_first()),
        }
    }
}

/// Every frequency that the scan of `keys` reads, up to the first positive
/// one, fits in a `u32`.
pub open spec fn cpuinfo_mhz_fits(data: Seq<u8>, keys: Seq<Seq<u8>>) -> bool
    decreases keys.len(),
{
    if keys.len() == 0 {
        true
    } else {
        match field_mhz(data, keys[0]) {
            Some(m) => m <= u32::MAX && (m > 0 || cpuinfo_mhz_fits(data, keys.drop_first())),
            None => cpuinfo_mhz_fits(data, keys.drop_first()),
        }
    }
}

/// The CPU frequency in MHz: the sysfs maximum frequency (kHz) divided by
/// 1000 when it is positive, else the first positive cpuinfo MHz field.
pub open spec fn cpu_freq_mhz(sysfs: Option<Seq<u8>>, cpuinfo: Option<Seq<u8>>) -> Option<nat> {
    match sysfs {
        Some(d) if scattered_digits_value(d) > 0 => Some(scattered_digits_value(d) / 1000),
        _ => match cpuinfo {
            Some(c) => cpuinfo_mhz(c, mhz_keys()),
            None => None,
        },
    }
}

/// A positive sysfs maximum frequency (in kHz) decides the frequency,
/// whatever the cpuinfo contents hold: it is that value divided by 1000.
pub proof fn lemma_freq_prefers_sysfs(sysfs: Seq<u8>, cpuinfo: Option<Seq<u8>>)
    requires
        scattered_digits_value(sysfs) > 0,
    ensures
        cpu_freq_mhz(Some(sysfs), cpuinfo) == Some(scattered_digits_value(sysfs) / 1000),
{
}

/// A sysfs file holding `khz > 0` in decimal and a newline gives `khz / 1000`
/// MHz, whatever the cpuinfo contents hold.
pub proof fn lemma_freq_from_sysfs_decimal(khz: nat, cpuinfo: Option<Seq<u8>>)
    requires
        khz > 0,
    ensures
        cpu_freq_mhz(Some(decimal_bytes(khz).push(10)), cpuinfo) == Some(khz / 1000),
{
    let d = decimal_bytes(khz);
    lemma_decimal_bytes_digits(khz);
    lemma_scattered_all_digits(d);
    assert(d.push(10).drop_last() =~= d);
    assert(!is_digit(d.push(10).last()));
}

/// The cpuinfo fields are read only when sysfs is missing or gives zero: a
/// zero sysfs value gives what no sysfs file gives.
pub proof fn lemma_freq_sysfs_zero(sysfs: Seq<u8>, cpuinfo: Option<Seq<u8>>)
    requires
        scattered_digits_value(sysfs) == 0,
    ensures
        cpu_freq_mhz(Some(sysfs), cpuinfo) == cpu_freq_mhz(None, cpuinfo),
{
}

/// The inputs on which `get_cpu_freq_mhz` computes without overflow.
pub open spec fn cpu_freq_fits(sysfs: Option<Seq<u8>>, cpuinfo: Option<Seq<u8>>) -> bool {
    &&& sysfs matches Some(d) ==> scattered_digits_value(d) <= u32::MAX
    &&& !(sysfs matches Some(d) && scattered_digits_value(d) > 0) ==> (cpuinfo matches Some(c)
        ==> cpuinfo_mhz_fits(c, mhz_keys()))
}

proof fn lemma_scattered_prefix(s: Seq<u8>, k: int)
    requires
        0 <= k <= s.len(),
    ensures
        scattered_digits_value(s.take(k)) <= scattered_digits_value(s),
    decreases s.len() - k,
{
    if k < s.len() {
        lemma_scattered_prefix(s, k + 1);
        assert(s.take(k + 1).drop_last() =~= s.take(k));
    } else {
        assert(s.take(k) =~= s);
    }
}

proof fn lemma_before_dot(v: Seq<u8>)
    ensures
        before_dot(v).len() <= v.len(),
        before_dot(v) =~= v.take(before_dot(v).len() as int),
        before_dot(v).len() < v.len() ==> v[before_dot(v).len() as int] == 46,
        forall|j: int| 0 <= j < before_dot(v).len() ==> #[trigger] v[j] != 46,
    decreases v.len(),
{
    if v.len() > 0 && v[0] != 46 {
        lemma_before_dot(v.drop_first());
        assert forall|j: int| 0 <= j < before_dot(v).len() implies #[trigger] v[j] != 46 by {
            if j > 0 {
                assert(v[j] == v.drop_first()[j - 1]);
            }
        }
    }
}

/// The value of the digits of `v` up to its first '.' (when `stop_at_dot`)
/// or of all its digits, other bytes skipped.
fn digits_of(v: &[u8], stop_at_dot: bool) -> (r: u32)
    requires
        scattered_digits_value(if stop_at_dot { before_dot(v@) } else { v@ }) <= u32::MAX,
    ensures
        r == scattered_digits_value(if stop_at_dot { before_dot(v@) } else { v@ }),
{
    let ghost whole = if stop_at_dot { before_dot(v@) } else { v@ };
    proof {
        lemma_before_dot(v@);
    }
    let mut n: u32 = 0;
    let mut k: usize = 0;
    proof {
        assert(v@.take(0) =~= Seq::<u8>::empty());
    }
    while k < v.len()
        invariant_except_break
            k <= whole.len(),
            whole =~= v@.take(whole.len() as int),
            n == scattered_digits_value(v@.take(k as int)),
            scattered_digits_value(whole) <= u32::MAX,
            whole.len() <= v.len(),
            stop_at_dot ==> (whole.len() < v.len() ==> v@[whole.len() as int] == 46),
            stop_at_dot ==> forall|j: int| 0 <= j < whole.len() ==> #[trigger] v@[j] != 46,
            !stop_at_dot ==> whole == v@,
        ensures
            n == scattered_digits_value(whole),
        decreases v.len() - k,
    {
        if stop_at_dot && v[k] == 46u8 {
            proof {
                assert(k == whole.len());
                assert(v@.take(k as int) =~= whole);
            }
            break;
        }
        proof {
            assert(k < whole.len());
            assert(v@.take(k + 1).drop_last() =~= v@.take(k as int));
            assert(v@.take(k + 1) =~= whole.take(k + 1));
            lemma_scattered_prefix(whole, k + 1);
        }
        if 48u8 <= v[k] && v[k] <= 57u8 {
            n = n * 10 + (v[k] - 48u8) as u32;
        }
        k = k + 1;
        proof {
            if k == v.len() {
                assert(v@.take(k as int) =~= whole);
            }
        }
    }
    n
}

/// Whether the digits of `v` up to its first '.' (when `stop_at_dot`) or all
/// its digits, other bytes skipped, make a number that fits in a `u32`.
fn digits_fit_u32(v: &[u8], stop_at_dot: bool) -> (r: bool)
    ensures
        r == (scattered_digits_value(if stop_at_dot { before_dot(v@) } else { v@ }) <= u32::MAX),
{
    let ghost whole = if stop_at_dot { before_dot(v@) } else { v@ };
    proof {
        lemma_before_dot(v@);
    }
    let mut n: u64 = 0;
    let mut k: usize = 0;
    proof {
        assert(v@.take(0) =~= Seq::<u8>::empty());
    }
    while k < v.len()
        invariant_except_break
            k <= whole.len(),
            whole =~= v@.take(whole.len() as int),
            n == scattered_digits_value(v@.take(k as int)),
            whole == (if stop_at_dot { before_dot(v@) } else { v@ }),
            n <= u32::MAX,
            whole.len() <= v.len(),
            stop_at_dot ==> (whole.len() < v.len() ==> v@[whole.len() as int] == 46),
            stop_at_dot ==> forall|j: int| 0 <= j < whole.len() ==> #[trigger] v@[j] != 46,
            !stop_at_dot ==> whole == v@,
        ensures
            n == scattered_digits_value(whole),
            n <= u32::MAX,
        decreases v.len() - k,
    {
        if stop_at_dot && v[k] == 46u8 {
            proof {
                assert(k == whole.len());
                assert(v@.take(k as int) =~= whole);
            }
            break;
        }
        proof {
            assert(k < whole.len());
            assert(v@.take(k + 1).drop_last() =~= v@.take(k as int));
            assert(v@.take(k + 1) =~= whole.take(k + 1));
        }
        if 48u8 <= v[k] && v[k] <= 57u8 {
            n = n * 10 + (v[k] - 48u8) as u64;
        }
        if n > 4294967295u64 {
            proof {
                lemma_scattered_prefix(whole, k + 1);
            }
            return false;
        }
        k = k + 1;
        proof {
            if k == v.len() {
                assert(v@.take(k as int) =~= whole);
            }
        }
    }
    true
}

/// Whether `get_cpu_freq_mhz` reads these contents without overflow (see
/// `cpu_freq_fits`).
pub fn cpu_freq_computable(sysfs: Option<&[u8]>, cpuinfo: Option<&[u8]>) -> (r: bool)
    ensures
        r == cpu_freq_fits(
            match sysfs {
                Some(d) => Some(d@),
                None => None,
            },
            match cpuinfo {
                Some(c) => Some(c@),
                None => None,
            },
        ),
{
    if let Some(buf) = sysfs {
        if !digits_fit_u32(buf, false) {
            return false;
        }
        if digits_of(buf, false) > 0 {
            return true;
        }
    }
    let data = match cpuinfo {
        Some(c) => c,
        None => return true,
    };
    let keys: [&str; 4] = ["cpu MHz", "cpu MHz dynamic", "cpu MHz static", "CPU MHz"];
    let mut k: usize = 0;
    proof {
        assert(mhz_keys().skip(0) =~= mhz_keys());
    }
    while k < 4
        invariant
            k <= 4,
            keys@ == seq!["cpu MHz", "cpu MHz dynamic", "cpu MHz static", "CPU MHz"],
            cpu_freq_fits(
                match sysfs {
                    Some(d) => Some(d@),
                    None => None,
                },
                match cpuinfo {
                    Some(c) => Some(c@),
                    None => None,
                },
            ) == cpuinfo_mhz_fits(data@, mhz_keys().skip(k as int)),
        decreases 4 - k,
    {
        let key = keys[k].as_bytes();
        let ghost ks = mhz_keys().skip(k as int);
        proof {
            assert(ks[0] == key@);
            assert(ks.drop_first() =~= mhz_keys().skip(k + 1));
        }
        if let Some(val) = extract_field(data, key) {
            proof {
                assert(extract_field_spec(data@, ks[0]) is Some);
            }
            if !digits_fit_u32(val.as_bytes(), true) {
                return false;
            }
            let mhz = digits_of(val.as_bytes(), true);
            proof {
                assert(field_mhz(data@, ks[0]) == Some(mhz as nat));
            }
            if mhz > 0 {
                return true;
            }
        }
        k = k + 1;
    }
    true
}

/// Reads the CPU frequency in MHz from the contents of the sysfs
/// `cpuinfo_max_freq` file (in kHz) and, failing that, of `/proc/cpuinfo`;
/// `None` stands for a file that could not be read.
pub fn get_cpu_freq_mhz(sysfs: Option<&[u8]>, cpuinfo: Option<&[u8]>) -> (r: Option<u32>)
    requires
        cpu_freq_fits(
            match sysfs {
                Some(d) => Some(d@),
                None => None,
            },
            match cpuinfo {
                Some(c) => Some(c@),
                None => None,
            },
        ),
    ensures
        r matches Some(m) ==> cpu_freq_mhz(
            match sysfs {
                Some(d) => Some(d@),
                None => None,
            },
            match cpuinfo {
                Some(c) => Some(c@),
                None => None,
            },
        ) == Some(m as nat),
        r is None ==> cpu_freq_mhz(
            match sysfs {
                Some(d) => Some(d@),
                None => None,
            },
            match cpuinfo {
                Some(c) => Some(c@),
                None => None,
            },
        ) is None,
{
    if let Some(buf) = sysfs {
        let khz = digits_of(buf, false);
        if khz > 0 {
            return Some(khz / 1000);
        }
    }
    let data = match cpuinfo {
        Some(c) => c,
        None => return None,
    };
    let ghost whole = cpu_freq_mhz(
        match sysfs {
            Some(d) => Some(d@),
            None => None,
        },
        match cpuinfo {
            Some(c) => Some(c@),
            None => None,
        },
    );
    assert(whole == cpuinfo_mhz(data@, mhz_keys()));
    let keys: [&str; 4] = ["cpu MHz", "cpu MHz dynamic", "cpu MHz static", "CPU MHz"];
    let mut k: usize = 0;
    proof {
        assert(mhz_keys().skip(0) =~= mhz_keys());
    }
    while k < 4
        invariant
            k <= 4,
            keys@ == seq!["cpu MHz", "cpu MHz dynamic", "cpu MHz static", "CPU MHz"],
            whole == cpu_freq_mhz(
                match sysfs {
                    Some(d) => Some(d@),
                    None => None,
                },
                match cpuinfo {
                    Some(c) => Some(c@),
                    None => None,
                },
            ),
            whole == cpuinfo_mhz(data@, mhz_keys().skip(k as int)),
            cpuinfo_mhz_fits(data@, mhz_keys().skip(k as int)),
        decreases 4 - k,
    {
        let key = keys[k].as_bytes();
        let ghost ks = mhz_keys().skip(k as int);
        proof {
            assert(ks[0] == key@);
            assert(ks.drop_first() =~= mhz_keys().skip(k + 1));
        }
        if let Some(val) = extract_field(data, key) {
            proof {
                assert(extract_field_spec(data@, ks[0]) is Some);
            }
            let mhz = digits_of(val.as_bytes(), true);
            proof {
                assert(field_mhz(data@, ks[0]) == Some(mhz as nat));
            }
            if mhz > 0 {
                proof {
                    assert(cpuinfo_mhz(data@, ks) == Some(mhz as nat));
                }
                return Some(mhz);
            }
        }
        k = k + 1;
    }
    None
}

// ---------------------------------------------------------------------------
// Model name
// ---------------------------------------------------------------------------

/// The keys of the cpuinfo fields that may give the model name, in the order
/// they are tried.
pub open spec fn model_keys() -> Seq<Seq<u8>> {
    seq![
        "model name".spec_bytes(),
        "Model Name".spec_bytes(),
        "uarch".spec_bytes(),
        "isa".spec_bytes(),
        "cpu".spec_bytes(),
        "machine".spec_bytes(),
        "vendor_id".spec_bytes(),
    ]
}

/// The value of the cpuinfo field `key`, trimmed as `trim` does, when the
/// field is present and is UTF-8.
#[verifier::opaque]
pub open spec fn trimmed_field(data: Seq<u8>, key: Seq<u8>) -> Option<Seq<char>> {
    match extract_field_spec(data, key) {
        Some(_) => {
            let v = field_value(data, key).unwrap();
            Some(decode_utf8(v.subrange(trim_start(v), trim_end(v))))
        },
        None => None,
    }
}

/// The first non-empty trimmed value among the fields `keys`.
pub open spec fn model_name_from(data: Seq<u8>, keys: Seq<Seq<u8>>) -> Option<Seq<char>>
    decreases keys.len(),
{
    if keys.len() == 0 {
        None
    } else {
        match trimmed_field(data, keys[0]) {
            Some(t) => if t.len() > 0 {
                Some(t)
            } else {
                model_name_from(data, keys.drop_first())
            },
            None => model_name_from(data, keys.drop_first()),
        }
    }
}

/// The frequency suffix ` @ X.YY GHz` for `mhz`, rounded to the nearest
/// hundredth of a GHz.
pub open spec fn freq_suffix(mhz: nat) -> Seq<char> {
    let centi = (mhz + 5) / 10;
    let ghz_int = centi / 100;
    let ghz_frac = centi % 100;
    " @ "@ + decimal(ghz_int) + seq!['.'] + (if ghz_frac < 10 {
        seq!['0']
    } else {
        Seq::empty()
    }) + decimal(ghz_frac) + " GHz"@
}

/// The frequency shows exactly two decimals of GHz, and a carry from
/// rounding goes into the integer part: integer and fraction together are
/// `mhz` in hundredths of a GHz, rounded to the nearest.
pub proof fn lemma_freq_two_decimals(mhz: nat)
    ensures
        ({
            let centi = (mhz + 5) / 10;
            let frac = centi % 100;
            &&& (if frac < 10 {
                seq!['0']
            } else {
                Seq::empty()
            }) + decimal(frac) =~= seq![digit_char(frac / 10), digit_char(frac % 10)]
            &&& (centi / 100) * 100 + frac == centi
            &&& centi * 10 <= mhz + 5 < centi * 10 + 10
        }),
{
    let centi = (mhz + 5) / 10;
    let frac = centi % 100;
    if frac >= 10 {
        assert(frac / 10 < 10);
        assert(decimal(frac / 10) == seq![digit_char(frac / 10)]);
    }
}

/// What `get_model_name` returns.
pub open spec fn model_name(data: Seq<u8>, mhz: Option<u32>) -> Option<Seq<char>> {
    match model_name_from(data, model_keys()) {
        Some(t) => Some(t + match mhz {
            Some(m) => freq_suffix(m as nat),
            None => Seq::empty(),
        }),
        None => None,
    }
}

/// The value of the field `key` of `data`, trimmed.
fn trimmed_value<'a>(data: &'a [u8], key: &[u8]) -> (r: Option<&'a str>)
    ensures
        r is Some <==> trimmed_field(data@, key@) is Some,
        r matches Some(t) ==> t@ == trimmed_field(data@, key@).unwrap(),
{
    proof {
        reveal(trimmed_field);
    }
    match extract_field(data, key) {
        Some(val) => Some(trim(val)),
        None => None,
    }
}

/// Appends the frequency suffix for `mhz` to `name`.
fn append_freq(name: &mut String, mhz: u32)
    requires
        mhz <= u32::MAX - 5,
    ensures
        final(name)@ == old(name)@ + freq_suffix(mhz as nat),
{
    name.append(" @ ");
    // round to the nearest hundredth of a GHz first, so that a carry goes
    // into the integer part
    let rounded_centesimal = (mhz + 5) / 10;
    let ghz_int = rounded_centesimal / 100;
    let ghz_frac = rounded_centesimal % 100;
    write_u64(name, ghz_int as u64);
    push_char(name, '.');
    if ghz_frac < 10 {
        push_char(name, '0');
    }
    write_u64(name, ghz_frac as u64);
    name.append(" GHz");
}

/// Reads the CPU model name from the contents of `/proc/cpuinfo`, trimmed,
/// followed by the frequency `mhz` in GHz when it is known.
pub fn get_model_name(cpuinfo: &[u8], mhz: Option<u32>) -> (r: Option<String>)
    requires
        mhz matches Some(m) ==> m <= u32::MAX - 5,
    ensures
        r is Some <==> model_name(cpuinfo@, mhz) is Some,
        r matches Some(s) ==> s@ == model_name(cpuinfo@, mhz).unwrap(),
{
    let keys: [&str; 7] = ["model name", "Model Name", "uarch", "isa", "cpu", "machine", "vendor_id"];
    let ghost whole = model_name_from(cpuinfo@, model_keys());
    let mut k: usize = 0;
    proof {
        assert(model_keys().skip(0) =~= model_keys());
    }
    while k < 7
        invariant
            k <= 7,
            keys@ == seq!["model name", "Model Name", "uarch", "isa", "cpu", "machine", "vendor_id"],
            whole == model_name_from(cpuinfo@, model_keys()),
            whole == model_name_from(cpuinfo@, model_keys().skip(k as int)),
            mhz matches Some(m) ==> m <= u32::MAX - 5,
        decreases 7 - k,
    {
        let key = keys[k].as_bytes();
        let ghost ks = model_keys().skip(k as int);
        proof {
            assert(ks[0] == key@);
            assert(ks.drop_first() =~= model_keys().skip(k + 1));
        }
        if let Some(trimmed) = trimmed_value(cpuinfo, key) {
            if !trimmed.is_empty() {
                let mut name = String::from_str(trimmed);
                if let Some(m) = mhz {
                    append_freq(&mut name, m);
                }
                proof {
                    assert(whole == Some(trimmed@));
                }
                return Some(name);
            }
        }
        k = k + 1;
    }
    None
}

/// The CPU model name (see `get_model_name`), or the empty string when it
/// is unavailable.
pub fn get_cpu_name(cpuinfo: &[u8], mhz: Option<u32>) -> (r: String)
    requires
        mhz matches Some(m) ==> m <= u32::MAX - 5,
    ensures
        r@ == (match model_name(cpuinfo@, mhz) {
            Some(s) => s,
            None => Seq::empty(),
        }),
{
    match get_model_name(cpuinfo, mhz) {
        Some(s) => s,
        None => String::new(),
    }
}

} // verus!
