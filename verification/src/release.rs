//! The kernel identification (from `uname(2)`) and the OS name (from
//! `/etc/os-release`).

use vstd::prelude::*;
use vstd::string::*;
use vstd::utf8::{valid_utf8, decode_utf8};
use crate::text::{find_prefixed_line, prefixed_line_rest, utf8_lossy, utf8_lossy_string, utf8_str};

verus! {

/// The record filled in by `uname(2)`: six NUL-terminated strings of at most
/// 65 bytes each.
pub struct UtsNameBuf {
    pub sysname: [i8; 65],
    pub nodename: [i8; 65],
    pub release: [i8; 65],
    pub version: [i8; 65],
    pub machine: [i8; 65],
    pub domainname: [i8; 65],
}

/// The bytes of a C string held in `field`: those before the first NUL (all
/// of them when there is none).
pub open spec fn c_str(field: Seq<i8>) -> Seq<u8>
    decreases field.len(),
{
    if field.len() == 0 || field[0] == 0 {
        Seq::empty()
    } else {
        seq![field[0] as u8] + c_str(field.drop_first())
    }
}

proof fn lemma_c_str_step(field: Seq<i8>, k: int)
    requires
        0 <= k < field.len(),
        forall|j: int| 0 <= j < k ==> #[trigger] field[j] != 0,
        field[k] != 0,
    ensures
        c_str(field.take(k)).push(field[k] as u8) =~= c_str(field.take(k + 1)),
    decreases k,
{
    if k > 0 {
        assert(field.take(k).drop_first() =~= field.drop_first().take(k - 1));
        assert(field.take(k + 1).drop_first() =~= field.drop_first().take(k));
        assert(field[0] != 0);
        assert(field.take(k)[0] == field[0]);
        assert(field.take(k + 1)[0] == field[0]);
        assert(field.drop_first()[k - 1] == field[k]);
        lemma_c_str_step(field.drop_first(), k - 1);
        assert(c_str(field.take(k)) == seq![field[0] as u8] + c_str(field.take(k).drop_first()));
        assert(c_str(field.take(k + 1)) == seq![field[0] as u8] + c_str(field.take(k + 1).drop_first()));
    } else {
        assert(field.take(1).drop_first() =~= Seq::<i8>::empty());
        assert(field.take(1)[0] == field[0]);
        assert(c_str(Seq::<i8>::empty()) == Seq::<u8>::empty());
        assert(c_str(field.take(0)) == Seq::<u8>::empty());
        assert(c_str(field.take(1)) == seq![field[0] as u8] + c_str(field.take(1).drop_first()));
    }
}

proof fn lemma_c_str_stop(field: Seq<i8>, k: int)
    requires
        0 <= k <= field.len(),
        forall|j: int| 0 <= j < k ==> #[trigger] field[j] != 0,
        k == field.len() || field[k] == 0,
    ensures
        c_str(field.take(k)) =~= c_str(field),
    decreases k,
{
    if k > 0 {
        assert(field.take(k).drop_first() =~= field.drop_first().take(k - 1));
        lemma_c_str_stop(field.drop_first(), k - 1);
    } else if field.len() > 0 {
        assert(field.take(0) =~= Seq::<i8>::empty());
    } else {
        assert(field.take(0) =~= field);
    }
}

/// Copies the C string held in `field`.
pub fn c_str_bytes(field: &[i8; 65]) -> (r: Vec<u8>)
    ensures
        r@ == c_str(field@),
{
    let mut out: Vec<u8> = Vec::new();
    let mut k: usize = 0;
    proof {
        assert(field@.take(0) =~= Seq::<i8>::empty());
    }
    while k < 65 && field[k] != 0
        invariant
            k <= 65,
            field@.len() == 65,
            forall|j: int| 0 <= j < k ==> #[trigger] field@[j] != 0,
            out@ == c_str(field@.take(k as int)),
        decreases 65 - k,
    {
        proof {
            lemma_c_str_step(field@, k as int);
        }
        out.push(field[k] as u8);
        k = k + 1;
    }
    proof {
        lemma_c_str_stop(field@, k as int);
    }
    out
}

/// The identification of the running kernel.
pub struct UtsName(UtsNameBuf);

impl UtsName {
    /// Wraps the record filled in by `uname(2)`.
    pub fn from_buf(buf: UtsNameBuf) -> (r: Self)
        ensures
            r.buf() == buf,
    {
        UtsName(buf)
    }

    /// The wrapped record.
    pub closed spec fn buf(&self) -> UtsNameBuf {
        self.0
    }

    /// The network node name (host name).
    pub fn nodename(&self) -> (r: Vec<u8>)
        ensures
            r@ == c_str(self.buf().nodename@),
    {
        c_str_bytes(&self.0.nodename)
    }

    /// The operating system name.
    pub fn sysname(&self) -> (r: Vec<u8>)
        ensures
            r@ == c_str(self.buf().sysname@),
    {
        c_str_bytes(&self.0.sysname)
    }

    /// The kernel release.
    pub fn release(&self) -> (r: Vec<u8>)
        ensures
            r@ == c_str(self.buf().release@),
    {
        c_str_bytes(&self.0.release)
    }

    /// The hardware name.
    pub fn machine(&self) -> (r: Vec<u8>)
        ensures
            r@ == c_str(self.buf().machine@),
    {
        c_str_bytes(&self.0.machine)
    }
}

/// The text of `bytes` when they are UTF-8, else `fallback`.
pub open spec fn text_or(bytes: Seq<u8>, fallback: Seq<char>) -> Seq<char> {
    if valid_utf8(bytes) {
        decode_utf8(bytes)
    } else {
        fallback
    }
}

/// Appends the text of `bytes` when they are UTF-8, else `fallback`.
pub fn append_text_or(s: &mut String, bytes: &[u8], fallback: &str)
    ensures
        final(s)@ == old(s)@ + text_or(bytes@, fallback@),
{
    match utf8_str(bytes) {
        Some(t) => s.append(t),
        None => s.append(fallback),
    }
}

/// The kernel text: `{sysname} {release} ({machine})`, each part "Unknown"
/// when it is not UTF-8.
pub open spec fn system_info_text(u: UtsNameBuf) -> Seq<char> {
    text_or(c_str(u.sysname@), "Unknown"@) + " "@ + text_or(c_str(u.release@), "Unknown"@) + " ("@
        + text_or(c_str(u.machine@), "Unknown"@) + ")"@
}

/// Describes the kernel: system name, release and machine.
pub fn get_system_info(utsname: &UtsName) -> (r: String)
    ensures
        r@ == system_info_text(utsname.buf()),
{
    let sysname = utsname.sysname();
    let release = utsname.release();
    let machine = utsname.machine();
    let mut result = String::new();
    append_text_or(&mut result, sysname.as_slice(), "Unknown");
    result.append(" ");
    append_text_or(&mut result, release.as_slice(), "Unknown");
    result.append(" (");
    append_text_or(&mut result, machine.as_slice(), "Unknown");
    result.append(")");
    proof {
        assert(result@ =~= system_info_text(utsname.buf()));
    }
    result
}

/// `v` without surrounding double quotes, when it has both.
pub open spec fn unquoted(v: Seq<u8>) -> Seq<u8> {
    if v.len() >= 2 && v[0] == 34 && v[v.len() - 1] == 34 {
        v.subrange(1, v.len() - 1)
    } else {
        v
    }
}

/// The OS name given by os-release `content`: the value of the first
/// `PRETTY_NAME=` line, unquoted and decoded, or "Unknown".
pub open spec fn os_pretty_name(content: Seq<u8>) -> Seq<char> {
    match prefixed_line_rest(content, "PRETTY_NAME=".spec_bytes()) {
        Some(v) => utf8_lossy(unquoted(v)),
        None => "Unknown"@,
    }
}

/// Reads the pretty name of the OS from the contents of `/etc/os-release`.
pub fn get_os_pretty_name(content: &[u8]) -> (r: String)
    ensures
        r@ == os_pretty_name(content@),
        (prefixed_line_rest(content@, "PRETTY_NAME=".spec_bytes()) matches Some(v) && valid_utf8(
            unquoted(v),
        )) ==> r@ == decode_utf8(unquoted(prefixed_line_rest(content@, "PRETTY_NAME=".spec_bytes()).unwrap())),
{
    match find_prefixed_line(content, "PRETTY_NAME=".as_bytes()) {
        Some(value) => {
            let trimmed: &[u8] = if value.len() >= 2 && value[0] == 34u8 && value[value.len() - 1]
                == 34u8 {
                &value[1..value.len() - 1]
            } else {
                value
            };
            proof {
                assert(trimmed@ =~= unquoted(value@));
            }
            utf8_lossy_string(trimmed)
        },
        None => String::from_str("Unknown"),
    }
}

} // verus!
