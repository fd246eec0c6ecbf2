//! The desktop field: the desktop environment and the session type.

use vstd::prelude::*;
use vstd::string::*;
use crate::text::push_char;

verus! {

/// `c` in upper case when it is an ASCII lower-case letter.
pub open spec fn ascii_upper(c: char) -> char {
    if 'a' <= c && c <= 'z' {
        ((c as u32) - 32) as char
    } else {
        c
    }
}

/// `s` with its first character turned to upper case.
pub open spec fn capitalized(s: Seq<char>) -> Seq<char> {
    if s.len() == 0 {
        s
    } else {
        seq![ascii_upper(s[0])] + s.skip(1)
    }
}

/// `d` without a leading "none+" (the marker of a session without a
/// desktop, followed by its window manager).
pub open spec fn without_none_prefix(d: Seq<char>) -> Seq<char> {
    if d.len() >= 5 && d.take(5) == "none+"@ {
        d.skip(5)
    } else {
        d
    }
}

/// The desktop text: the desktop name (or "Unknown"), then the session
/// type, capitalized, in parentheses (or "Unknown" when it is unset or
/// empty).
pub open spec fn desktop_text(desktop: Option<Seq<char>>, session: Option<Seq<char>>) -> Seq<char> {
    let d = match desktop {
        Some(d) => d,
        None => "Unknown"@,
    };
    let s = match session {
        Some(s) => s,
        None => Seq::empty(),
    };
    let backend = if s.len() == 0 {
        "Unknown"@
    } else {
        s
    };
    without_none_prefix(d) + " ("@ + capitalized(backend) + ")"@
}

/// A set, non-empty session type shows in parentheses at the end, its first
/// character upper-cased when it is an ASCII lower-case letter and the rest
/// unchanged, after the desktop name (without a leading "none+", or
/// "Unknown" when unset); the session part is the same whatever the
/// desktop.
pub proof fn lemma_desktop_shows_session(desktop: Option<Seq<char>>, session: Seq<char>)
    requires
        session.len() > 0,
    ensures
        desktop_text(desktop, Some(session)) == without_none_prefix(
            match desktop {
                Some(d) => d,
                None => "Unknown"@,
            },
        ) + " ("@ + seq![
            if 'a' <= session[0] && session[0] <= 'z' {
                ((session[0] as u32) - 32) as char
            } else {
                session[0]
            },
        ] + session.skip(1) + ")"@,
{
}

/// A desktop of the form "none+" followed by a window manager shows as the
/// window manager alone; any other desktop name shows unchanged.
pub proof fn lemma_desktop_none_prefix(wm: Seq<char>, d: Seq<char>)
    ensures
        without_none_prefix("none+"@ + wm) == wm,
        !(d.len() >= 5 && d.take(5) == "none+"@) ==> without_none_prefix(d) == d,
{
    reveal_strlit("none+");
    assert(("none+"@ + wm).take(5) =~= "none+"@);
    assert(("none+"@ + wm).skip(5) =~= wm);
}

/// An unset or empty session type shows as "(Unknown)".
pub proof fn lemma_desktop_unknown_session(desktop: Option<Seq<char>>, session: Option<Seq<char>>)
    requires
        session matches Some(s) ==> s.len() == 0,
    ensures
        desktop_text(desktop, session) == without_none_prefix(
            match desktop {
                Some(d) => d,
                None => "Unknown"@,
            },
        ) + " (Unknown)"@,
{
    reveal_strlit("Unknown");
    reveal_strlit(" (");
    reveal_strlit(")");
    reveal_strlit(" (Unknown)");
    let u = "Unknown"@;
    assert(capitalized(u) =~= u);
    assert(" ("@ + u + ")"@ =~= " (Unknown)"@);
}

/// Describes the desktop from the values of `XDG_CURRENT_DESKTOP` and
/// `XDG_SESSION_TYPE` (`None` when unset or not UTF-8).
pub fn get_desktop_info(desktop: Option<&str>, session: Option<&str>) -> (r: String)
    requires
        session matches Some(s) ==> (s@.len() > 0 ==> (s@[0] as u32) < 128),
    ensures
        r@ == desktop_text(
            match desktop {
                Some(d) => Some(d@),
                None => None,
            },
            match session {
                Some(s) => Some(s@),
                None => None,
            },
        ),
{
    let desktop_raw: &str = match desktop {
        Some(d) => d,
        None => "Unknown",
    };
    let session_raw: &str = match session {
        Some(s) => s,
        None => "",
    };
    proof {
        reveal_strlit("");
        reveal_strlit("Unknown");
        reveal_strlit("none+");
    }
    let desktop_str = strip_none_prefix(desktop_raw);
    let backend_str: &str = if session_raw.is_empty() {
        "Unknown"
    } else {
        session_raw
    };

    let mut result = String::new();
    result.append(desktop_str);
    result.append(" (");
    let n = backend_str.unicode_len();
    if n > 0 {
        let first = backend_str.get_char(0);
        let upper = if 'a' <= first && first <= 'z' {
            ((first as u8) - 32) as char
        } else {
            first
        };
        proof {
            assert(upper == ascii_upper(first));
        }
        push_char(&mut result, upper);
        result.append(backend_str.substring_char(1, n));
    }
    result.append(")");
    proof {
        let b = backend_str@;
        if b.len() > 0 {
            assert(capitalized(b) =~= seq![ascii_upper(b[0])] + b.subrange(1, b.len() as int));
        }
    }
    result
}

/// `d` without a leading "none+".
fn strip_none_prefix(d: &str) -> (r: &str)
    ensures
        r@ == without_none_prefix(d@),
{
    proof {
        reveal_strlit("none+");
    }
    let n = d.unicode_len();
    if n >= 5 && d.get_char(0) == 'n' && d.get_char(1) == 'o' && d.get_char(2) == 'n'
        && d.get_char(3) == 'e' && d.get_char(4) == '+' {
        proof {
            assert(d@.take(5) =~= "none+"@);
        }
        d.substring_char(5, n)
    } else {
        proof {
            if d@.len() >= 5 && d@.take(5) == "none+"@ {
                assert(d@[0] == d@.take(5)[0]);
                assert(d@[1] == d@.take(5)[1]);
                assert(d@[2] == d@.take(5)[2]);
                assert(d@[3] == d@.take(5)[3]);
                assert(d@[4] == d@.take(5)[4]);
            }
        }
        d
    }
}

} // verus!
