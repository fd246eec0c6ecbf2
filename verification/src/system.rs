//! User, shell, memory and disk fields.

use vstd::prelude::*;
use vstd::string::*;
use crate::colors::Colors;
use crate::release::{append_text_or, c_str, text_or, UtsName};
use crate::text::{
    digit_run_len, digits_value, find_line_end, has_prefix, is_ascii_space, is_digit,
    leading_number, lemma_digit_run, lemma_digits_value_prefix, lemma_digits_value_push,
    lemma_run_len_from, line_len, push_char, run_len, starts_with, decimal_bytes,
    lemma_decimal_bytes_digits, lemma_line_split,
};

verus! {

// ---------------------------------------------------------------------------
// User and shell
// ---------------------------------------------------------------------------

/// The user field: `user@host`, with the user in yellow, the '@' in red and
/// the host in green.
pub open spec fn user_host_text(colors: Colors, user: Option<Seq<char>>, nodename: Seq<u8>) -> Seq<char> {
    colors.yellow@ + (match user {
        Some(u) => u,
        None => "unknown_user"@,
    }) + colors.red@ + seq!['@'] + colors.green@ + text_or(nodename, "unknown_host"@) + colors.reset@
}

/// Builds the user field from the value of `USER` (`None` when unset or not
/// UTF-8) and the node name of `utsname`.
pub fn get_username_and_hostname(colors: &Colors, user: Option<&str>, utsname: &UtsName) -> (r: String)
    ensures
        r@ == user_host_text(
            *colors,
            match user {
                Some(u) => Some(u@),
                None => None,
            },
            c_str(utsname.buf().nodename@),
        ),
{
    let username: &str = match user {
        Some(u) => u,
        None => "unknown_user",
    };
    let hostname = utsname.nodename();
    let mut result = String::new();
    result.append(colors.yellow);
    result.append(username);
    result.append(colors.red);
    push_char(&mut result, '@');
    result.append(colors.green);
    append_text_or(&mut result, hostname.as_slice(), "unknown_host");
    result.append(colors.reset);
    proof {
        assert(result@ =~= user_host_text(
            *colors,
            match user {
                Some(u) => Some(u@),
                None => None,
            },
            c_str(utsname.buf().nodename@),
        ));
    }
    result
}

/// The part of `s` after its last '/' (all of `s` when it has none).
pub open spec fn after_last_slash(s: Seq<char>) -> Seq<char>
    decreases s.len(),
{
    if s.len() == 0 {
        s
    } else if s.last() == '/' {
        Seq::empty()
    } else {
        after_last_slash(s.drop_last()).push(s.last())
    }
}

/// The shell field: the file name of the shell, or "unknown_shell".
pub open spec fn shell_text(shell: Option<Seq<char>>) -> Seq<char> {
    match shell {
        Some(s) => if s.len() == 0 {
            "unknown_shell"@
        } else {
            after_last_slash(s)
        },
        None => "unknown_shell"@,
    }
}

proof fn lemma_after_last_slash(s: Seq<char>, k: int)
    requires
        0 <= k <= s.len(),
        k > 0 ==> s[k - 1] == '/',
        forall|j: int| k <= j < s.len() ==> #[trigger] s[j] != '/',
    ensures
        after_last_slash(s) =~= s.subrange(k, s.len() as int),
    decreases s.len(),
{
    if s.len() > k {
        lemma_after_last_slash(s.drop_last(), k);
    }
}

/// The shell's name from the value of `SHELL` (`None` when unset or not
/// UTF-8): the part after the last '/'.
pub fn get_shell(shell: Option<&str>) -> (r: String)
    ensures
        r@ == shell_text(
            match shell {
                Some(s) => Some(s@),
                None => None,
            },
        ),
{
    let s: &str = match shell {
        Some(s) => s,
        None => "",
    };
    proof {
        reveal_strlit("");
    }
    let n = s.unicode_len();
    let mut start: usize = n;
    while start > 0 && s.get_char(start - 1) != '/'
        invariant
            start <= n,
            n == s@.len(),
            forall|j: int| start <= j < n ==> #[trigger] s@[j] != '/',
        decreases start,
    {
        start = start - 1;
    }
    if n == 0 {
        String::from_str("unknown_shell")
    } else {
        proof {
            lemma_after_last_slash(s@, start as int);
        }
        String::from_str(s.substring_char(start, n))
    }
}

// ---------------------------------------------------------------------------
// Memory
// ---------------------------------------------------------------------------

/// Parses the decimal number at the start of `s`.
pub fn parse_u64_fast(s: &[u8]) -> (r: u64)
    requires
        leading_number(s@) <= u64::MAX,
    ensures
        r == leading_number(s@),
{
    let ghost run = digit_run_len(s@);
    proof {
        lemma_digit_run(s@);
        assert(s@.take(run as int).take(0) =~= Seq::<u8>::empty());
    }
    let mut result: u64 = 0;
    let mut k: usize = 0;
    while k < s.len() && 48u8 <= s[k] && s[k] <= 57u8
        invariant
            k <= run <= s.len(),
            run == digit_run_len(s@),
            forall|j: int| 0 <= j < run ==> is_digit(#[trigger] s@[j]),
            run < s.len() ==> !is_digit(s@[run as int]),
            result == digits_value(s@.take(run as int).take(k as int)),
            leading_number(s@) <= u64::MAX,
        decreases s.len() - k,
    {
        proof {
            assert(k < run);
            let t = s@.take(run as int);
            assert(t.take(k + 1) =~= t.take(k as int).push(t[k as int]));
            lemma_digits_value_push(t.take(k as int), t[k as int]);
            assert forall|j: int| 0 <= j < t.len() implies is_digit(#[trigger] t[j]) by {
                assert(t[j] == s@[j]);
            }
            lemma_digits_value_prefix(t, k + 1);
        }
        result = result * 10 + (s[k] - 48u8) as u64;
        k = k + 1;
    }
    proof {
        assert(s@.take(run as int).take(run as int) =~= s@.take(run as int));
    }
    result
}

/// The number after `prefix` on `line`, once ASCII whitespace is skipped.
pub open spec fn field_number(line: Seq<u8>, prefix: Seq<u8>) -> nat {
    let rest = line.skip(prefix.len() as int);
    leading_number(rest.skip(run_len(rest, |b: u8| is_ascii_space(b)) as int))
}

/// The scan state over `/proc/meminfo`: total and available kB, and whether
/// each has been found.
pub struct MemScan {
    pub total_kb: nat,
    pub available_kb: nat,
    pub found_total: bool,
    pub found_available: bool,
    /// Every number read so far fits in a `u64`.
    pub fits: bool,
}

/// One line of `/proc/meminfo` applied to the scan state.
pub open spec fn mem_line(st: MemScan, line: Seq<u8>) -> MemScan {
    if has_prefix(line, "MemTotal:".spec_bytes()) {
        let v = field_number(line, "MemTotal:".spec_bytes());
        MemScan { total_kb: v, found_total: true, fits: st.fits && v <= u64::MAX, ..st }
    } else if has_prefix(line, "MemAvailable:".spec_bytes()) {
        let v = field_number(line, "MemAvailable:".spec_bytes());
        MemScan { available_kb: v, found_available: true, fits: st.fits && v <= u64::MAX, ..st }
    } else {
        st
    }
}

/// The scan of `data` line by line from state `st`, which stops once both
/// fields are found.
pub open spec fn mem_scan(data: Seq<u8>, st: MemScan) -> MemScan
    decreases data.len(),
{
    if data.len() == 0 || (st.found_total && st.found_available) {
        st
    } else {
        let e = line_len(data);
        let next = mem_line(st, data.take(e as int));
        if e < data.len() {
            mem_scan(data.skip((e + 1) as int), next)
        } else {
            next
        }
    }
}

/// The result of scanning the contents of `/proc/meminfo`.
pub open spec fn meminfo(data: Seq<u8>) -> MemScan {
    mem_scan(
        data,
        MemScan { total_kb: 0, available_kb: 0, found_total: false, found_available: false, fits: true },
    )
}

/// The number after `prefix` at the start of `line`.
fn read_field_number(line: &[u8], prefix_len: usize, Ghost(prefix): Ghost<Seq<u8>>) -> (r: (u64, bool))
    requires
        prefix.len() == prefix_len,
        prefix_len <= line.len(),
    ensures
        r.1 == (field_number(line@, prefix) <= u64::MAX),
        r.1 ==> r.0 == field_number(line@, prefix),
{
    let ghost rest = line@.skip(prefix_len as int);
    let mut pos = prefix_len;
    while pos < line.len() && (line[pos] == 32u8 || line[pos] == 9u8 || line[pos] == 10u8
        || line[pos] == 12u8 || line[pos] == 13u8)
        invariant
            prefix_len <= pos <= line.len(),
            rest == line@.skip(prefix_len as int),
            forall|j: int| 0 <= j < pos - prefix_len ==> is_ascii_space(#[trigger] rest[j]),
        decreases line.len() - pos,
    {
        proof {
            assert(rest[pos - prefix_len] == line@[pos as int]);
        }
        pos = pos + 1;
    }
    let ghost f = |b: u8| is_ascii_space(b);
    proof {
        lemma_run_len_from(rest, f, pos - prefix_len);
        assert(rest.skip(pos - prefix_len) =~= line@.skip(pos as int));
        if pos < line.len() {
            assert(line@.skip(pos as int)[0] == line@[pos as int]);
        }
    }
    let value = &line[pos..line.len()];
    proof {
        assert(value@ =~= line@.skip(pos as int));
    }
    if fits_u64(value) {
        (parse_u64_fast(value), true)
    } else {
        (0, false)
    }
}

/// Whether the number at the start of `s` fits in a `u64`.
pub fn fits_u64(s: &[u8]) -> (r: bool)
    ensures
        r == (leading_number(s@) <= u64::MAX),
{
    let ghost run = digit_run_len(s@);
    proof {
        lemma_digit_run(s@);
        assert(s@.take(run as int).take(0) =~= Seq::<u8>::empty());
    }
    let mut value: u64 = 0;
    let mut k: usize = 0;
    while k < s.len() && 48u8 <= s[k] && s[k] <= 57u8
        invariant
            k <= run <= s.len(),
            run == digit_run_len(s@),
            forall|j: int| 0 <= j < run ==> is_digit(#[trigger] s@[j]),
            run < s.len() ==> !is_digit(s@[run as int]),
            value == digits_value(s@.take(run as int).take(k as int)),
        decreases s.len() - k,
    {
        let ghost t = s@.take(run as int);
        proof {
            assert(k < run);
            assert(t.take(k + 1) =~= t.take(k as int).push(t[k as int]));
            lemma_digits_value_push(t.take(k as int), t[k as int]);
            assert forall|j: int| 0 <= j < t.len() implies is_digit(#[trigger] t[j]) by {
                assert(t[j] == s@[j]);
            }
        }
        let d = (s[k] - 48u8) as u64;
        if value > (u64::MAX - d) / 10 {
            proof {
                lemma_digits_value_prefix(t, k + 1);
                assert(digits_value(t.take(k + 1)) > u64::MAX) by (nonlinear_arith)
                    requires
                        digits_value(t.take(k + 1)) == value * 10 + d,
                        value > (u64::MAX - d) / 10,
                        d <= 9,
                ;
            }
            return false;
        }
        proof {
            assert(value * 10 + d <= u64::MAX) by (nonlinear_arith)
                requires
                    value <= (u64::MAX - d) / 10,
                    d <= 9,
            ;
        }
        value = value * 10 + d;
        k = k + 1;
    }
    proof {
        assert(s@.take(run as int).take(run as int) =~= s@.take(run as int));
    }
    true
}

/// The total and available memory in kB from the contents of
/// `/proc/meminfo`: the numbers of the `MemTotal:` and `MemAvailable:`
/// lines (0 when missing).
pub fn parse_meminfo(content: &[u8]) -> (r: (u64, u64))
    requires
        meminfo(content@).fits,
    ensures
        r.0 == meminfo(content@).total_kb,
        r.1 == meminfo(content@).available_kb,
{
    match try_parse_meminfo(content) {
        Some(r) => r,
        None => (0, 0),
    }
}

/// As `parse_meminfo`, or `None` when a number that the scan reads does not
/// fit in a `u64` (where 64-bit parsing would overflow).
pub fn try_parse_meminfo(content: &[u8]) -> (r: Option<(u64, u64)>)
    ensures
        r is Some <==> meminfo(content@).fits,
        r matches Some(v) ==> v.0 == meminfo(content@).total_kb && v.1 == meminfo(
            content@,
        ).available_kb,
{
    let total_prefix = "MemTotal:".as_bytes();
    let available_prefix = "MemAvailable:".as_bytes();
    let mut total_memory_kb: u64 = 0;
    let mut available_memory_kb: u64 = 0;
    let mut found_total = false;
    let mut found_available = false;
    let mut offset: usize = 0;
    let ghost whole = meminfo(content@);
    proof {
        assert(content@.skip(0) =~= content@);
    }
    while offset < content.len() && (!found_total || !found_available)
        invariant
            offset <= content.len(),
            total_prefix@ == "MemTotal:".spec_bytes(),
            available_prefix@ == "MemAvailable:".spec_bytes(),
            whole == meminfo(content@),
            whole == mem_scan(
                content@.skip(offset as int),
                MemScan {
                    total_kb: total_memory_kb as nat,
                    available_kb: available_memory_kb as nat,
                    found_total,
                    found_available,
                    fits: true,
                },
            ),
        decreases content.len() - offset,
    {
        let ghost rest = content@.skip(offset as int);
        let line_end = find_line_end(content, offset);
        let line = &content[offset..line_end];
        proof {
            assert(line@ =~= rest.take(line_len(rest) as int));
        }
        let ghost before = MemScan {
            total_kb: total_memory_kb as nat,
            available_kb: available_memory_kb as nat,
            found_total,
            found_available,
            fits: true,
        };
        let ghost after = mem_line(before, line@);
        if starts_with(line, total_prefix) {
            let (v, ok) = read_field_number(line, total_prefix.len(), Ghost(total_prefix@));
            if !ok {
                proof {
                    assert(line@ == rest.take(line_len(rest) as int));
                    assert(!after.fits);
                    lemma_scan_unfit(rest, before);
                    assert(!whole.fits);
                }
                return None;
            }
            total_memory_kb = v;
            found_total = true;
        } else if starts_with(line, available_prefix) {
            let (v, ok) = read_field_number(line, available_prefix.len(), Ghost(available_prefix@));
            if !ok {
                proof {
                    lemma_scan_unfit(content@.skip(offset as int), before);
                }
                return None;
            }
            available_memory_kb = v;
            found_available = true;
        }
        proof {
            assert(after == MemScan {
                total_kb: total_memory_kb as nat,
                available_kb: available_memory_kb as nat,
                found_total,
                found_available,
                fits: true,
            });
        }
        if line_end >= content.len() {
            proof {
                assert(whole == after);
            }
            return Some((total_memory_kb, available_memory_kb));
        }
        proof {
            assert(rest.skip((line_len(rest) + 1) as int) =~= content@.skip(line_end + 1));
        }
        offset = line_end + 1;
    }
    Some((total_memory_kb, available_memory_kb))
}

/// The bytes of the two labels that the scan looks for.
proof fn lemma_meminfo_labels()
    ensures
        "MemTotal:".spec_bytes().len() == 9,
        "MemAvailable:".spec_bytes().len() == 13,
        "MemTotal:".spec_bytes()[3] == 84,
        "MemAvailable:".spec_bytes()[3] == 65,
        forall|j: int| 0 <= j < 9 ==> #[trigger] "MemTotal:".spec_bytes()[j] != 10,
        forall|j: int| 0 <= j < 13 ==> #[trigger] "MemAvailable:".spec_bytes()[j] != 10,
{
    broadcast use vstd::string::is_ascii_spec_bytes;

    reveal_strlit("MemTotal:");
    reveal_strlit("MemAvailable:");
    assert(is_ascii("MemTotal:"));
    assert(is_ascii("MemAvailable:"));
}

/// A line made of `label`, blanks, the decimal digits of `n` and a `unit`
/// that does not start with a digit gives `n` as the number of `label`.
proof fn lemma_field_line(label: Seq<u8>, ws: Seq<u8>, n: nat, unit: Seq<u8>)
    requires
        forall|j: int| 0 <= j < ws.len() ==> #[trigger] ws[j] == 32 || ws[j] == 9,
        unit.len() > 0 ==> !is_digit(unit[0]),
    ensures
        field_number(label + ws + decimal_bytes(n) + unit, label) == n,
{
    let line = label + ws + decimal_bytes(n) + unit;
    let d = decimal_bytes(n);
    lemma_decimal_bytes_digits(n);
    let rest = line.skip(label.len() as int);
    let du = d + unit;
    assert(rest =~= ws + du);
    let f = |b: u8| is_ascii_space(b);
    assert forall|j: int| 0 <= j < ws.len() implies f(#[trigger] rest[j]) by {
        assert(rest[j] == ws[j]);
    }
    lemma_run_len_from(rest, f, ws.len() as int);
    assert(rest.skip(ws.len() as int) =~= du);
    assert(du[0] == d[0]);
    assert(is_digit(d[0]));
    assert(run_len(du, f) == 0);
    lemma_digit_run(du);
    let r = digit_run_len(du);
    if r < d.len() {
        assert(du[r as int] == d[r as int]);
    }
    if r > d.len() {
        assert(du[d.len() as int] == unit[0]);
    }
    assert(r == d.len());
    assert(du.take(r as int) =~= d);
}

/// No byte of a field line is '\n'.
proof fn lemma_field_line_one_line(label: Seq<u8>, ws: Seq<u8>, n: nat, unit: Seq<u8>)
    requires
        forall|j: int| 0 <= j < label.len() ==> #[trigger] label[j] != 10,
        forall|j: int| 0 <= j < ws.len() ==> #[trigger] ws[j] == 32 || ws[j] == 9,
        forall|j: int| 0 <= j < unit.len() ==> #[trigger] unit[j] != 10,
    ensures
        forall|j: int|
            0 <= j < (label + ws + decimal_bytes(n) + unit).len() ==> #[trigger] (label + ws
                + decimal_bytes(n) + unit)[j] != 10,
{
    let d = decimal_bytes(n);
    lemma_decimal_bytes_digits(n);
    let line = label + ws + d + unit;
    assert forall|j: int| 0 <= j < line.len() implies #[trigger] line[j] != 10 by {
        if j < label.len() {
            assert(line[j] == label[j]);
        } else if j < label.len() + ws.len() {
            assert(line[j] == ws[j - label.len()]);
        } else if j < label.len() + ws.len() + d.len() {
            assert(line[j] == d[j - label.len() - ws.len()]);
        } else {
            assert(line[j] == unit[j - label.len() - ws.len() - d.len()]);
        }
    }
}

/// The memory figures are the whole numbers written after the labels: for
/// `/proc/meminfo` contents that begin with a `MemTotal:` line and a
/// `MemAvailable:` line, each the label, blanks, the decimal digits of a
/// number and a unit that does not start with a digit, the total is the
/// first number and the available memory the second, of any length; the
/// lines after them are not read.
pub proof fn lemma_meminfo_reads_fields(
    ws1: Seq<u8>,
    n: nat,
    unit1: Seq<u8>,
    ws2: Seq<u8>,
    m: nat,
    unit2: Seq<u8>,
    rest: Seq<u8>,
)
    requires
        forall|j: int| 0 <= j < ws1.len() ==> #[trigger] ws1[j] == 32 || ws1[j] == 9,
        forall|j: int| 0 <= j < ws2.len() ==> #[trigger] ws2[j] == 32 || ws2[j] == 9,
        forall|j: int| 0 <= j < unit1.len() ==> #[trigger] unit1[j] != 10,
        forall|j: int| 0 <= j < unit2.len() ==> #[trigger] unit2[j] != 10,
        unit1.len() > 0 ==> !is_digit(unit1[0]),
        unit2.len() > 0 ==> !is_digit(unit2[0]),
    ensures
        ({
            let data = "MemTotal:".spec_bytes() + ws1 + decimal_bytes(n) + unit1 + seq![10u8]
                + "MemAvailable:".spec_bytes() + ws2 + decimal_bytes(m) + unit2 + seq![10u8] + rest;
            &&& meminfo(data).total_kb == n
            &&& meminfo(data).available_kb == m
            &&& meminfo(data).fits <==> (n <= u64::MAX && m <= u64::MAX)
        }),
{
    let t = "MemTotal:".spec_bytes();
    let a = "MemAvailable:".spec_bytes();
    lemma_meminfo_labels();
    let line1 = t + ws1 + decimal_bytes(n) + unit1;
    let line2 = a + ws2 + decimal_bytes(m) + unit2;
    let tail = line2 + seq![10u8] + rest;
    let data = t + ws1 + decimal_bytes(n) + unit1 + seq![10u8] + a + ws2 + decimal_bytes(m) + unit2
        + seq![10u8] + rest;
    assert(data =~= line1 + seq![10u8] + tail);
    lemma_field_line_one_line(t, ws1, n, unit1);
    lemma_field_line_one_line(a, ws2, m, unit2);
    lemma_line_split(line1, tail);
    lemma_line_split(line2, rest);
    lemma_field_line(t, ws1, n, unit1);
    lemma_field_line(a, ws2, m, unit2);
    assert(line1.take(9) =~= t);
    assert(line2.take(13) =~= a);
    assert(line2.take(9)[3] == 65);
    assert(!has_prefix(line2, t));
    let init = MemScan {
        total_kb: 0,
        available_kb: 0,
        found_total: false,
        found_available: false,
        fits: true,
    };
    let st1 = mem_line(init, line1);
    assert(st1.total_kb == n && st1.found_total && !st1.found_available);
    assert(meminfo(data) == mem_scan(tail, st1));
    let st2 = mem_line(st1, line2);
    assert(st2.total_kb == n && st2.available_kb == m && st2.found_total && st2.found_available);
    assert(mem_scan(tail, st1) == mem_scan(rest, st2));
    assert(mem_scan(rest, st2) == st2);
}

/// A scan that has lost `fits` never regains it.
proof fn lemma_scan_keeps_unfit(data: Seq<u8>, st: MemScan)
    requires
        !st.fits,
    ensures
        !mem_scan(data, st).fits,
    decreases data.len(),
{
    if data.len() > 0 && !(st.found_total && st.found_available) {
        let e = line_len(data);
        if e < data.len() {
            lemma_scan_keeps_unfit(data.skip((e + 1) as int), mem_line(st, data.take(e as int)));
        }
    }
}

/// When a step of a scan from `st` loses `fits`, the whole scan does.
proof fn lemma_scan_unfit(data: Seq<u8>, st: MemScan)
    requires
        data.len() > 0,
        !(st.found_total && st.found_available),
        !mem_line(st, data.take(line_len(data) as int)).fits,
    ensures
        !mem_scan(data, st).fits,
{
    let e = line_len(data);
    if e < data.len() {
        lemma_scan_keeps_unfit(data.skip((e + 1) as int), mem_line(st, data.take(e as int)));
    }
}

// ---------------------------------------------------------------------------
// Disk
// ---------------------------------------------------------------------------

/// The record filled in by `statfs(2)`.
pub struct StatfsBuf {
    pub f_type: i64,
    pub f_bsize: i64,
    pub f_blocks: u64,
    pub f_bfree: u64,
    pub f_bavail: u64,
    pub f_files: u64,
    pub f_ffree: u64,
    pub f_fsid: [i32; 2],
    pub f_namelen: i64,
    pub f_frsize: i64,
    pub f_flags: i64,
}

/// The size and the used space of a file system in bytes: the block size
/// (read as unsigned) times the block count, and that size less the space
/// available to unprivileged users.
pub fn disk_usage_bytes(vfs: &StatfsBuf) -> (r: (u64, u64))
    requires
        (vfs.f_bsize as u64) * vfs.f_blocks <= u64::MAX,
        (vfs.f_bsize as u64) * vfs.f_bavail <= (vfs.f_bsize as u64) * vfs.f_blocks,
    ensures
        r.0 == (vfs.f_bsize as u64) * vfs.f_blocks,
        r.1 == (vfs.f_bsize as u64) * vfs.f_blocks - (vfs.f_bsize as u64) * vfs.f_bavail,
{
    let block_size = vfs.f_bsize as u64;
    let total_size = block_size * vfs.f_blocks;
    let used_size = total_size - block_size * vfs.f_bavail;
    (total_size, used_size)
}

} // verus!
