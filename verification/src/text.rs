//! Text helpers shared by the fetch fields: decimal rendering of integers,
//! decimal parsing of byte strings, and the standard-library string calls
//! that the library relies on.

use vstd::prelude::*;
use vstd::string::*;
use vstd::utf8::{valid_utf8, decode_utf8};

verus! {

/// The ASCII character of decimal digit `d`.
pub open spec fn digit_char(d: nat) -> char
    recommends
        d < 10,
{
    (48 + d) as char
}

/// The decimal rendering of `n`, without leading zeros.
pub open spec fn decimal(n: nat) -> Seq<char>
    decreases n,
{
    if n < 10 {
        seq![digit_char(n)]
    } else {
        decimal(n / 10).push(digit_char(n % 10))
    }
}

/// `b` is an ASCII decimal digit.
pub open spec fn is_digit(b: u8) -> bool {
    48 <= b <= 57
}

/// `b` is ASCII whitespace as Rust's `u8::is_ascii_whitespace` defines it:
/// space, tab, line feed, form feed or carriage return.
pub open spec fn is_ascii_space(b: u8) -> bool {
    b == 32 || b == 9 || b == 10 || b == 12 || b == 13
}

/// The number of leading decimal digits of `s`.
pub open spec fn digit_run_len(s: Seq<u8>) -> nat
    decreases s.len(),
{
    if s.len() > 0 && is_digit(s[0]) {
        1 + digit_run_len(s.drop_first())
    } else {
        0
    }
}

/// The value of the decimal digits in `s` read left to right (every byte
/// of `s` is taken as a digit).
pub open spec fn digits_value(s: Seq<u8>) -> nat
    decreases s.len(),
{
    if s.len() == 0 {
        0
    } else {
        digits_value(s.drop_last()) * 10 + (s.last() - 48) as nat
    }
}

/// The value of the decimal number at the start of `s` (0 when `s` does
/// not start with a digit).
pub open spec fn leading_number(s: Seq<u8>) -> nat {
    digits_value(s.take(digit_run_len(s) as int))
}

/// The value of all decimal digits of `s` taken together, skipping every
/// other byte.
pub open spec fn scattered_digits_value(s: Seq<u8>) -> nat
    decreases s.len(),
{
    if s.len() == 0 {
        0
    } else if is_digit(s.last()) {
        scattered_digits_value(s.drop_last()) * 10 + (s.last() - 48) as nat
    } else {
        scattered_digits_value(s.drop_last())
    }
}

/// Appending a digit multiplies the value by ten and adds the digit.
pub proof fn lemma_digits_value_push(s: Seq<u8>, b: u8)
    ensures
        digits_value(s.push(b)) == digits_value(s) * 10 + (b - 48) as nat,
{
    assert(s.push(b).drop_last() =~= s);
}

/// Every prefix of a digit string has a value no larger than the whole.
pub proof fn lemma_digits_value_prefix(s: Seq<u8>, i: int)
    requires
        0 <= i <= s.len(),
        forall|j: int| 0 <= j < s.len() ==> is_digit(#[trigger] s[j]),
    ensures
        digits_value(s.take(i)) <= digits_value(s),
    decreases s.len() - i,
{
    if i < s.len() {
        lemma_digits_value_prefix(s, i + 1);
        assert(s.take(i + 1) =~= s.take(i).push(s[i]));
        lemma_digits_value_push(s.take(i), s[i]);
    } else {
        assert(s.take(i) =~= s);
    }
}

/// The digit run of `s` is made of digits and is followed by a non-digit or
/// by the end of `s`.
pub proof fn lemma_digit_run(s: Seq<u8>)
    ensures
        digit_run_len(s) <= s.len(),
        forall|j: int| 0 <= j < digit_run_len(s) ==> is_digit(#[trigger] s[j]),
        digit_run_len(s) < s.len() ==> !is_digit(s[digit_run_len(s) as int]),
    decreases s.len(),
{
    if s.len() > 0 && is_digit(s[0]) {
        lemma_digit_run(s.drop_first());
        assert forall|j: int| 0 <= j < digit_run_len(s) implies is_digit(#[trigger] s[j]) by {
            if j > 0 {
                assert(s[j] == s.drop_first()[j - 1]);
            }
        }
    }
}

/// The bytes of the decimal rendering of `n`.
pub open spec fn decimal_bytes(n: nat) -> Seq<u8> {
    decimal(n).map_values(|c: char| c as u8)
}

/// The decimal rendering of `n` is made of digits whose value is `n`.
pub proof fn lemma_decimal_bytes_digits(n: nat)
    ensures
        forall|j: int| 0 <= j < decimal_bytes(n).len() ==> is_digit(#[trigger] decimal_bytes(n)[j]),
        digits_value(decimal_bytes(n)) == n,
        decimal_bytes(n).len() > 0,
    decreases n,
{
    if n >= 10 {
        lemma_decimal_bytes_digits(n / 10);
        let b = (48 + n % 10) as char as u8;
        assert(b == 48 + n % 10);
        assert(decimal_bytes(n) =~= decimal_bytes(n / 10).push(b));
        lemma_digits_value_push(decimal_bytes(n / 10), b);
        assert(n == (n / 10) * 10 + n % 10);
    } else {
        let b = (48 + n) as char as u8;
        assert(b == 48 + n);
        assert(decimal_bytes(n) =~= seq![b]);
        assert(seq![b].drop_last() =~= Seq::<u8>::empty());
        assert(digits_value(Seq::<u8>::empty()) == 0);
        assert(digits_value(seq![b]) == digits_value(seq![b].drop_last()) * 10 + (b - 48) as nat);
    }
}

/// On a string of digits, the value of its scattered digits is the value
/// of the whole string.
pub proof fn lemma_scattered_all_digits(s: Seq<u8>)
    requires
        forall|j: int| 0 <= j < s.len() ==> is_digit(#[trigger] s[j]),
    ensures
        scattered_digits_value(s) == digits_value(s),
    decreases s.len(),
{
    if s.len() > 0 {
        assert(is_digit(s[s.len() - 1]));
        assert forall|j: int| 0 <= j < s.drop_last().len() implies is_digit(#[trigger] s.drop_last()[j]) by {
            assert(s.drop_last()[j] == s[j]);
        }
        lemma_scattered_all_digits(s.drop_last());
    }
}

/// Reading the decimal rendering of `n` gives `n` back: the number that
/// `write_u64` writes is the one that `parse_u64_fast` reads.
pub proof fn lemma_decimal_round_trip(n: nat)
    ensures
        leading_number(decimal_bytes(n)) == n,
{
    let s = decimal_bytes(n);
    lemma_decimal_bytes_digits(n);
    lemma_digit_run(s);
    assert(s.take(s.len() as int) =~= s);
}

/// The number of leading bytes of `s` that satisfy `f`.
pub open spec fn run_len(s: Seq<u8>, f: spec_fn(u8) -> bool) -> nat
    decreases s.len(),
{
    if s.len() > 0 && f(s[0]) {
        1 + run_len(s.drop_first(), f)
    } else {
        0
    }
}

/// When the first `k` bytes of `s` satisfy `f`, the run is those `k` bytes
/// and the run of the rest.
pub proof fn lemma_run_len_from(s: Seq<u8>, f: spec_fn(u8) -> bool, k: int)
    requires
        0 <= k <= s.len(),
        forall|j: int| 0 <= j < k ==> f(#[trigger] s[j]),
    ensures
        run_len(s, f) == k + run_len(s.skip(k), f),
    decreases k,
{
    if k > 0 {
        assert(f(s[0]));
        assert forall|j: int| 0 <= j < k - 1 implies f(#[trigger] s.drop_first()[j]) by {
            assert(s.drop_first()[j] == s[j + 1]);
        }
        lemma_run_len_from(s.drop_first(), f, k - 1);
        assert(s.drop_first().skip(k - 1) =~= s.skip(k));
    } else {
        assert(s.skip(0) =~= s);
    }
}

/// The length of the first line of `s`: the number of bytes before the first
/// '\n', or all of `s` when it holds none.
pub open spec fn line_len(s: Seq<u8>) -> nat
    decreases s.len(),
{
    if s.len() == 0 || s[0] == 10 {
        0
    } else {
        1 + line_len(s.drop_first())
    }
}

/// When the first `k` bytes of `s` are not '\n', the first line is those `k`
/// bytes and the first line of the rest.
pub proof fn lemma_line_len_from(s: Seq<u8>, k: int)
    requires
        0 <= k <= s.len(),
        forall|j: int| 0 <= j < k ==> #[trigger] s[j] != 10,
    ensures
        line_len(s) == k + line_len(s.skip(k)),
    decreases k,
{
    if k > 0 {
        assert(s[0] != 10);
        lemma_line_len_from(s.drop_first(), k - 1);
        assert(s.drop_first().skip(k - 1) =~= s.skip(k));
    } else {
        assert(s.skip(0) =~= s);
    }
}

/// A line `l` without '\n', followed by '\n' and `r`: the first line is `l`
/// and what follows it is `r`.
pub proof fn lemma_line_split(l: Seq<u8>, r: Seq<u8>)
    requires
        forall|j: int| 0 <= j < l.len() ==> #[trigger] l[j] != 10,
    ensures
        line_len(l + seq![10u8] + r) == l.len(),
        (l + seq![10u8] + r).take(l.len() as int) == l,
        (l + seq![10u8] + r).skip(l.len() + 1int) == r,
{
    let s = l + seq![10u8] + r;
    assert forall|j: int| 0 <= j < l.len() implies #[trigger] s[j] != 10 by {
        assert(s[j] == l[j]);
    }
    lemma_line_len_from(s, l.len() as int);
    assert(s.skip(l.len() as int)[0] == 10);
    assert(s.take(l.len() as int) =~= l);
    assert(s.skip(l.len() + 1int) =~= r);
}

/// Returns the index of the first '\n' of `data` at or after `from`, or the
/// length of `data` when there is none.
pub fn find_line_end(data: &[u8], from: usize) -> (r: usize)
    requires
        from <= data.len(),
    ensures
        r == from + line_len(data@.skip(from as int)),
        r <= data.len(),
{
    let ghost s = data@.skip(from as int);
    let mut k: usize = from;
    while k < data.len() && data[k] != 10u8
        invariant
            from <= k <= data.len(),
            s == data@.skip(from as int),
            forall|j: int| 0 <= j < k - from ==> #[trigger] s[j] != 10,
        decreases data.len() - k,
    {
        k = k + 1;
    }
    proof {
        lemma_line_len_from(s, k - from);
        assert(s.skip(k - from) =~= data@.skip(k as int));
        if k < data.len() {
            assert(data@.skip(k as int)[0] == 10);
        }
    }
    k
}

/// `s` begins with `p`.
pub open spec fn has_prefix(s: Seq<u8>, p: Seq<u8>) -> bool {
    p.len() <= s.len() && s.take(p.len() as int) == p
}

/// The `p.len()` bytes of `s` that end at index `end` are `p`.
pub open spec fn has_suffix_at(s: Seq<u8>, end: int, p: Seq<u8>) -> bool {
    p.len() <= end <= s.len() && s.subrange(end - p.len(), end) == p
}

/// Whether `s` begins with `p`.
pub fn starts_with(s: &[u8], p: &[u8]) -> (r: bool)
    ensures
        r == has_prefix(s@, p@),
{
    if p.len() > s.len() {
        return false;
    }
    let mut k: usize = 0;
    while k < p.len()
        invariant
            p.len() <= s.len(),
            k <= p.len(),
            forall|j: int| 0 <= j < k ==> s@[j] == p@[j],
        decreases p.len() - k,
    {
        if s[k] != p[k] {
            proof {
                assert(s@.take(p.len() as int)[k as int] != p@[k as int]);
            }
            return false;
        }
        k = k + 1;
    }
    proof {
        assert(s@.take(p.len() as int) =~= p@);
    }
    true
}

/// Whether the `p.len()` bytes of `s` that end at index `end` are `p`.
pub fn ends_with_at(s: &[u8], end: usize, p: &[u8]) -> (r: bool)
    requires
        end <= s.len(),
    ensures
        r == has_suffix_at(s@, end as int, p@),
{
    if p.len() > end {
        return false;
    }
    let base = end - p.len();
    let mut k: usize = 0;
    while k < p.len()
        invariant
            base + p.len() == end,
            end <= s.len(),
            k <= p.len(),
            forall|j: int| 0 <= j < k ==> s@[base + j] == p@[j],
        decreases p.len() - k,
    {
        if s[base + k] != p[k] {
            proof {
                assert(s@.subrange(base as int, end as int)[k as int] != p@[k as int]);
            }
            return false;
        }
        k = k + 1;
    }
    proof {
        assert(s@.subrange(base as int, end as int) =~= p@);
    }
    true
}

/// The rest of the first line of `data` that begins with `prefix`, after
/// the prefix.
pub open spec fn prefixed_line_rest(data: Seq<u8>, prefix: Seq<u8>) -> Option<Seq<u8>>
    decreases data.len(),
{
    if data.len() == 0 {
        None
    } else {
        let e = line_len(data);
        let line = data.take(e as int);
        if has_prefix(line, prefix) {
            Some(line.skip(prefix.len() as int))
        } else if e < data.len() {
            prefixed_line_rest(data.skip((e + 1) as int), prefix)
        } else {
            None
        }
    }
}

/// Finds the first line of `data` that begins with `prefix` and returns
/// the rest of it, after the prefix.
pub fn find_prefixed_line<'a>(data: &'a [u8], prefix: &[u8]) -> (r: Option<&'a [u8]>)
    ensures
        r is Some <==> prefixed_line_rest(data@, prefix@) is Some,
        r matches Some(v) ==> v@ == prefixed_line_rest(data@, prefix@).unwrap(),
{
    let mut offset: usize = 0;
    proof {
        assert(data@.skip(0) =~= data@);
    }
    while offset < data.len()
        invariant
            offset <= data.len(),
            prefixed_line_rest(data@, prefix@) == prefixed_line_rest(data@.skip(offset as int), prefix@),
        decreases data.len() - offset,
    {
        let ghost rest = data@.skip(offset as int);
        let line_end = find_line_end(data, offset);
        let line = &data[offset..line_end];
        proof {
            assert(line@ =~= rest.take(line_len(rest) as int));
        }
        if starts_with(line, prefix) {
            let value = &line[prefix.len()..line.len()];
            proof {
                assert(value@ =~= line@.skip(prefix@.len() as int));
            }
            return Some(value);
        }
        if line_end >= data.len() {
            return None;
        }
        proof {
            assert(rest.skip((line_len(rest) + 1) as int) =~= data@.skip(line_end + 1));
        }
        offset = line_end + 1;
    }
    None
}

/// The longest path, in bytes, that fits the NUL-terminated path buffer.
pub const MAX_PATH_LEN: usize = 255;

/// The NUL-terminated form of `path` that is handed to `open(2)`, or the
/// negated `EINVAL` when the path does not fit a 256-byte buffer.
pub fn c_path(path: &str) -> (r: Result<Vec<u8>, i32>)
    ensures
        path.spec_bytes().len() > MAX_PATH_LEN ==> r == Err::<Vec<u8>, i32>(-22i32),
        path.spec_bytes().len() <= MAX_PATH_LEN ==> (r matches Ok(v) && v@ == path.spec_bytes().push(
            0,
        )),
{
    let bytes = path.as_bytes();
    if bytes.len() > MAX_PATH_LEN {
        return Err(-22);
    }
    let mut buf: Vec<u8> = Vec::new();
    let mut k: usize = 0;
    while k < bytes.len()
        invariant
            k <= bytes.len(),
            buf@ == bytes@.take(k as int),
        decreases bytes.len() - k,
    {
        buf.push(bytes[k]);
        proof {
            assert(bytes@.take(k + 1) =~= bytes@.take(k as int).push(bytes@[k as int]));
        }
        k = k + 1;
    }
    buf.push(0);
    proof {
        assert(bytes@.take(k as int) =~= bytes@);
    }
    Ok(buf)
}

/// Appends `c` to `s`.
///
/// Calls `String::push`, which appends one character to the string; the
/// contract states exactly that.
#[verifier::external_body]
pub(crate) fn push_char(s: &mut String, c: char)
    ensures
        final(s)@ == old(s)@.push(c),
{
    s.push(c);
}

/// Decodes `bytes` as UTF-8.
///
/// Calls `core::str::from_utf8`, which succeeds exactly when the bytes are
/// well-formed UTF-8 and then gives the string they encode.
#[verifier::external_body]
pub(crate) fn utf8_str(bytes: &[u8]) -> (r: Option<&str>)
    ensures
        r is Some <==> valid_utf8(bytes@),
        r matches Some(s) ==> s@ == decode_utf8(bytes@),
{
    core::str::from_utf8(bytes).ok()
}

/// The string that `String::from_utf8_lossy` makes of `bytes`: their UTF-8
/// decoding, with each invalid sequence replaced by U+FFFD.
pub uninterp spec fn utf8_lossy(bytes: Seq<u8>) -> Seq<char>;

/// Decodes `bytes` as UTF-8, replacing invalid sequences.
///
/// Calls `String::from_utf8_lossy`. The contract names its result
/// `utf8_lossy` and states what its documentation gives in a line: well-formed
/// UTF-8 is decoded unchanged. How invalid sequences are replaced is left
/// unstated.
#[verifier::external_body]
pub(crate) fn utf8_lossy_string(bytes: &[u8]) -> (r: String)
    ensures
        r@ == utf8_lossy(bytes@),
        valid_utf8(bytes@) ==> r@ == decode_utf8(bytes@),
{
    String::from_utf8_lossy(bytes).into_owned()
}

/// Appends the decimal rendering of `n` to `s`.
pub fn write_u64(s: &mut String, n: u64)
    ensures
        final(s)@ == old(s)@ + decimal(n as nat),
    decreases n,
{
    if n >= 10 {
        write_u64(s, n / 10);
    }
    let d: u8 = (n % 10) as u8;
    push_char(s, (d + 48) as char);
    proof {
        assert(((d + 48) as char) == digit_char((n % 10) as nat));
    }
}

/// Renders `n` in decimal.
pub fn u64_to_string(n: u64) -> (r: String)
    ensures
        r@ == decimal(n as nat),
{
    let mut s = String::new();
    write_u64(&mut s, n);
    proof {
        assert(s@ =~= Seq::<char>::empty() + decimal(n as nat));
    }
    s
}

} // verus!
