//! Rendering of the system uptime.

use vstd::prelude::*;
use vstd::string::*;
use crate::text::{decimal, write_u64};
use vstd::arithmetic::div_mod::lemma_fundamental_div_mod_converse;

verus! {

/// The fields of the kernel's `sysinfo(2)` record.
pub struct SysInfo {
    /// Seconds since boot.
    pub uptime: i64,
    pub loads: [u64; 3],
    pub totalram: u64,
    pub freeram: u64,
    pub sharedram: u64,
    pub bufferram: u64,
    pub totalswap: u64,
    pub freeswap: u64,
    pub procs: u16,
    pub totalhigh: u64,
    pub freehigh: u64,
    pub mem_unit: u32,
}

/// `items` joined with `sep` between consecutive items.
pub open spec fn join(items: Seq<Seq<char>>, sep: Seq<char>) -> Seq<char>
    decreases items.len(),
{
    if items.len() == 0 {
        Seq::empty()
    } else if items.len() == 1 {
        items[0]
    } else {
        join(items.drop_last(), sep) + sep + items.last()
    }
}

/// `n` followed by the singular or plural unit name.
pub open spec fn count_text(n: nat, singular: Seq<char>, plural: Seq<char>) -> Seq<char> {
    decimal(n) + if n == 1 {
        singular
    } else {
        plural
    }
}

/// `part` as a one-item list when `n` is positive, else the empty list.
pub open spec fn part_if_positive(n: nat, part: Seq<char>) -> Seq<Seq<char>> {
    if n > 0 {
        seq![part]
    } else {
        Seq::empty()
    }
}

/// The non-zero day, hour and minute counts of `secs` seconds.
pub open spec fn uptime_parts(secs: nat) -> Seq<Seq<char>> {
    let days = secs / 86400;
    let hours = (secs / 3600) % 24;
    let minutes = (secs / 60) % 60;
    part_if_positive(days, count_text(days, " day"@, " days"@)) + part_if_positive(
        hours,
        count_text(hours, " hour"@, " hours"@),
    ) + part_if_positive(minutes, count_text(minutes, " minute"@, " minutes"@))
}

/// The uptime text for `secs` seconds: the non-zero day, hour and minute
/// counts separated by ", ", or "less than a minute".
pub open spec fn uptime_text(secs: nat) -> Seq<char> {
    if uptime_parts(secs).len() == 0 {
        "less than a minute"@
    } else {
        join(uptime_parts(secs), ", "@)
    }
}

proof fn lemma_decimal_nonempty(n: nat)
    ensures
        decimal(n).len() > 0,
    decreases n,
{
    if n >= 10 {
        lemma_decimal_nonempty(n / 10);
    }
}

/// Appends the count `n` with its unit to `result`, separated by ", " when
/// `result` already holds a part, provided `n` is positive.
fn push_count(
    result: &mut String,
    n: u64,
    singular: &str,
    plural: &str,
    Ghost(parts): Ghost<Seq<Seq<char>>>,
)
    requires
        old(result)@ == (if parts.len() == 0 {
            Seq::<char>::empty()
        } else {
            join(parts, ", "@)
        }),
        forall|i: int| 0 <= i < parts.len() ==> #[trigger] parts[i].len() > 0,
    ensures
        ({
            let new_parts = parts + part_if_positive(
                n as nat,
                count_text(n as nat, singular@, plural@),
            );
            &&& final(result)@ == (if new_parts.len() == 0 {
                Seq::<char>::empty()
            } else {
                join(new_parts, ", "@)
            })
            &&& forall|i: int| 0 <= i < new_parts.len() ==> #[trigger] new_parts[i].len() > 0
        }),
{
    let ghost new_parts = parts + part_if_positive(
        n as nat,
        count_text(n as nat, singular@, plural@),
    );
    if n > 0 {
        proof {
            lemma_decimal_nonempty(n as nat);
            assert(new_parts.drop_last() =~= parts);
        }
        if !result.as_str().is_empty() {
            proof {
                if parts.len() == 0 {
                    assert(false);
                }
            }
            result.append(", ");
        }
        write_u64(result, n);
        if n == 1 {
            result.append(singular);
        } else {
            result.append(plural);
        }
        proof {
            if parts.len() == 0 {
                assert(new_parts =~= seq![count_text(n as nat, singular@, plural@)]);
            } else {
                assert(parts[0].len() > 0);
                assert(join(parts, ", "@).len() > 0) by {
                    lemma_join_nonempty(parts, ", "@);
                }
            }
            assert forall|i: int| 0 <= i < new_parts.len() implies #[trigger] new_parts[i].len() > 0 by {
                if i < parts.len() {
                    assert(new_parts[i] == parts[i]);
                }
            }
        }
    } else {
        proof {
            assert(new_parts =~= parts);
        }
    }
}

proof fn lemma_join_nonempty(items: Seq<Seq<char>>, sep: Seq<char>)
    requires
        items.len() > 0,
        forall|i: int| 0 <= i < items.len() ==> #[trigger] items[i].len() > 0,
    ensures
        join(items, sep).len() > 0,
    decreases items.len(),
{
    if items.len() > 1 {
        assert(items.last().len() > 0);
    }
}

/// The uptime lists the days, hours (0 to 23) and minutes (0 to 59) of the
/// time since boot, each only when non-zero: for `secs` made of `d` days,
/// `h` hours, `m` minutes and `s` seconds, the parts are `d` days, `h` hours
/// and `m` minutes, with the unit in the singular for a count of one.
pub proof fn lemma_uptime_counts(d: nat, h: nat, m: nat, s: nat)
    requires
        h < 24,
        m < 60,
        s < 60,
    ensures
        uptime_parts(d * 86400 + h * 3600 + m * 60 + s) == (if d > 0 {
            seq![decimal(d) + if d == 1 { " day"@ } else { " days"@ }]
        } else {
            Seq::<Seq<char>>::empty()
        }) + (if h > 0 {
            seq![decimal(h) + if h == 1 { " hour"@ } else { " hours"@ }]
        } else {
            Seq::<Seq<char>>::empty()
        }) + (if m > 0 {
            seq![decimal(m) + if m == 1 { " minute"@ } else { " minutes"@ }]
        } else {
            Seq::<Seq<char>>::empty()
        }),
{
    let secs = d * 86400 + h * 3600 + m * 60 + s;
    let r = h * 3600 + m * 60 + s;
    assert(0 <= r < 86400) by (nonlinear_arith)
        requires
            r == h * 3600 + m * 60 + s,
            h < 24,
            m < 60,
            s < 60,
    ;
    assert(secs == d * 86400 + r);
    lemma_fundamental_div_mod_converse(secs as int, 86400, d as int, r as int);
    let hh = d * 24 + h;
    assert(secs == hh * 3600 + (m * 60 + s)) by (nonlinear_arith)
        requires
            secs == d * 86400 + h * 3600 + m * 60 + s,
            hh == d * 24 + h,
    ;
    assert(0 <= m * 60 + s < 3600) by (nonlinear_arith)
        requires
            m < 60,
            s < 60,
    ;
    lemma_fundamental_div_mod_converse(secs as int, 3600, hh as int, (m * 60 + s) as int);
    lemma_fundamental_div_mod_converse(hh as int, 24, d as int, h as int);
    let mm = hh * 60 + m;
    assert(secs == mm * 60 + s) by (nonlinear_arith)
        requires
            secs == hh * 3600 + (m * 60 + s),
            mm == hh * 60 + m,
    ;
    lemma_fundamental_div_mod_converse(secs as int, 60, mm as int, s as int);
    lemma_fundamental_div_mod_converse(mm as int, 60, hh as int, m as int);
    assert(secs / 86400 == d);
    assert((secs / 3600) % 24 == h);
    assert((secs / 60) % 60 == m);
}

/// With days, hours and minutes all present, the uptime reads them in that
/// order, separated by ", ".
pub proof fn lemma_uptime_text_full(d: nat, h: nat, m: nat, s: nat)
    requires
        0 < d,
        0 < h < 24,
        0 < m < 60,
        s < 60,
    ensures
        uptime_text(d * 86400 + h * 3600 + m * 60 + s) == decimal(d) + (if d == 1 {
            " day"@
        } else {
            " days"@
        }) + ", "@ + decimal(h) + (if h == 1 {
            " hour"@
        } else {
            " hours"@
        }) + ", "@ + decimal(m) + (if m == 1 {
            " minute"@
        } else {
            " minutes"@
        }),
{
    let x = d * 86400 + h * 3600 + m * 60 + s;
    let a = decimal(d) + if d == 1 { " day"@ } else { " days"@ };
    let b = decimal(h) + if h == 1 { " hour"@ } else { " hours"@ };
    let c = decimal(m) + if m == 1 { " minute"@ } else { " minutes"@ };
    lemma_uptime_counts(d, h, m, s);
    assert(uptime_parts(x) =~= seq![a, b, c]);
    lemma_three_parts_text(x, a, b, c);
}

proof fn lemma_three_parts_text(secs: nat, a: Seq<char>, b: Seq<char>, c: Seq<char>)
    requires
        uptime_parts(secs) == seq![a, b, c],
    ensures
        uptime_text(secs) == a + ", "@ + b + ", "@ + c,
{
    let parts = seq![a, b, c];
    assert(parts.drop_last() =~= seq![a, b]);
    assert(seq![a, b].drop_last() =~= seq![a]);
    assert(join(seq![a], ", "@) == a);
    assert(seq![a, b].last() == b);
    assert(join(seq![a, b], ", "@) == a + ", "@ + b);
    assert(join(parts, ", "@) == join(seq![a, b], ", "@) + ", "@ + c);
}

/// The uptime reads "less than a minute" exactly when less than a minute
/// has passed; otherwise it lists at least one non-zero count.
pub proof fn lemma_uptime_under_a_minute(secs: nat)
    ensures
        uptime_parts(secs).len() == 0 <==> secs < 60,
        secs < 60 ==> uptime_text(secs) == "less than a minute"@,
        secs >= 60 ==> uptime_text(secs) != "less than a minute"@,
{
    let days = secs / 86400;
    let hours = (secs / 3600) % 24;
    let minutes = (secs / 60) % 60;
    if secs >= 60 {
        assert(days > 0 || hours > 0 || minutes > 0) by {
            if days == 0 {
                assert(secs < 86400);
                assert(secs / 3600 < 24);
                assert(secs / 60 < 1440);
                if hours == 0 {
                    assert(secs < 3600);
                    assert(secs / 60 < 60);
                }
            }
        }
        let parts = uptime_parts(secs);
        assert(parts.len() > 0);
        lemma_decimal_first_digit(days);
        lemma_decimal_first_digit(hours);
        lemma_decimal_first_digit(minutes);
        assert forall|i: int| 0 <= i < parts.len() implies #[trigger] parts[i].len() > 0 && '0'
            <= parts[i][0] <= '9' by {}
        lemma_join_starts_with_digit(parts, ", "@);
        assert('0' <= uptime_text(secs)[0] <= '9');
        reveal_strlit("less than a minute");
        assert("less than a minute"@[0] == 'l');
    }
}

proof fn lemma_decimal_first_digit(n: nat)
    ensures
        decimal(n).len() > 0,
        '0' <= decimal(n)[0] <= '9',
    decreases n,
{
    if n >= 10 {
        lemma_decimal_first_digit(n / 10);
    }
}

/// A join of uptime parts begins with the first digit of its first count.
proof fn lemma_join_starts_with_digit(parts: Seq<Seq<char>>, sep: Seq<char>)
    requires
        parts.len() > 0,
        forall|i: int| 0 <= i < parts.len() ==> #[trigger] parts[i].len() > 0,
    ensures
        join(parts, sep).len() > 0,
        join(parts, sep)[0] == parts[0][0],
    decreases parts.len(),
{
    if parts.len() > 1 {
        lemma_join_starts_with_digit(parts.drop_last(), sep);
    }
}

/// Renders the uptime recorded in `info` (its seconds read as unsigned):
/// the non-zero numbers of days, hours and minutes, or "less than a minute".
pub fn get_current(info: &SysInfo) -> (r: String)
    ensures
        r@ == uptime_text(info.uptime as u64 as nat),
{
    let uptime_seconds: u64 = info.uptime as u64;
    let days = uptime_seconds / 86400;
    let hours = (uptime_seconds / 3600) % 24;
    let minutes = (uptime_seconds / 60) % 60;

    let mut result = String::new();
    let ghost secs = uptime_seconds as nat;
    let ghost p0: Seq<Seq<char>> = Seq::empty();
    push_count(&mut result, days, " day", " days", Ghost(p0));
    let ghost p1 = p0 + part_if_positive(days as nat, count_text(days as nat, " day"@, " days"@));
    push_count(&mut result, hours, " hour", " hours", Ghost(p1));
    let ghost p2 = p1 + part_if_positive(
        hours as nat,
        count_text(hours as nat, " hour"@, " hours"@),
    );
    push_count(&mut result, minutes, " minute", " minutes", Ghost(p2));
    let ghost p3 = p2 + part_if_positive(
        minutes as nat,
        count_text(minutes as nat, " minute"@, " minutes"@),
    );
    proof {
        assert(p3 =~= uptime_parts(secs));
    }
    if result.as_str().is_empty() {
        result.append("less than a minute");
        proof {
            if p3.len() > 0 {
                lemma_join_nonempty(p3, ", "@);
            }
        }
    }
    result
}

} // verus!
