use vstd::prelude::*;
use vstd::string::StringSliceAdditionalSpecFns;
use vstd::utf8::{valid_utf8, encode_utf8};
use crate::strings::{strlen, c_len, lemma_c_len};
use crate::util::utf8_str;

verus! {

/// Read access to a port.
pub const READ: u32 = 1;
/// Write access to a port.
pub const WRITE: u32 = 2;
/// The right to change the permissions of a port.
pub const MANAGE: u32 = 4;

/// A set of port permissions: `READ`, `WRITE` and `MANAGE` as bits.
#[derive(Clone, Copy, PartialEq, Eq, Debug)]
pub struct Permissions {
    bits: u32,
}

impl Permissions {
    /// The bits of the set.
    pub closed spec fn spec_bits(&self) -> u32 {
        self.bits
    }

    /// The permissions whose bits are set in `bits`; other bits are dropped.
    pub fn from_bits_truncate(bits: u32) -> (r: Permissions)
        ensures
            r.spec_bits() == bits & 7,
    {
        Permissions { bits: bits & 7 }
    }

    /// The bits of the set, as the system call takes them.
    pub fn bits(&self) -> (r: u32)
        ensures
            r == self.spec_bits(),
    {
        self.bits
    }

    /// Both sets together.
    pub fn union(&self, other: Permissions) -> (r: Permissions)
        ensures
            r.spec_bits() == self.spec_bits() | other.spec_bits(),
    {
        Permissions { bits: self.bits | other.bits }
    }

    /// Every permission of `other` is in this set.
    pub fn contains(&self, other: Permissions) -> (r: bool)
        ensures
            r == (self.spec_bits() & other.spec_bits() == other.spec_bits()),
    {
        self.bits & other.bits == other.bits
    }
}

/// The bytes of the C string that `CString::new` makes of `name`: its bytes
/// and a terminating zero, or nothing when `name` holds a zero byte.
pub fn c_string(name: &str) -> (r: Option<Vec<u8>>)
    ensures
        r is None <==> name.spec_bytes().contains(0u8),
        r matches Some(v) ==> v@ == name.spec_bytes().push(0u8),
{
    let bytes = name.as_bytes();
    let mut out: Vec<u8> = Vec::new();
    let mut i: usize = 0;
    while i < bytes.len()
        invariant
            bytes@ == name.spec_bytes(),
            0 <= i <= bytes@.len(),
            out@ == bytes@.take(i as int),
            forall|k: int| 0 <= k < i ==> bytes@[k] != 0,
        decreases bytes@.len() - i,
    {
        if bytes[i] == 0 {
            proof {
                assert(name.spec_bytes()[i as int] == 0u8);
            }
            return None;
        }
        out.push(bytes[i]);
        i = i + 1;
        proof {
            assert(out@ =~= bytes@.take(i as int));
        }
    }
    out.push(0);
    proof {
        assert(out@ =~= name.spec_bytes().push(0u8));
        assert(!name.spec_bytes().contains(0u8));
    }
    Some(out)
}

/// The C string that `c_string` makes reads back as the name it was made of.
pub proof fn lemma_c_string_reads_back(name: Seq<u8>)
    requires
        !name.contains(0u8),
    ensures
        c_len(name.push(0u8)) == name.len(),
        name.push(0u8).take(name.len() as int) == name,
{
    let s = name.push(0u8);
    crate::strings::lemma_c_len(s);
    if c_len(s) < name.len() {
        assert(s[c_len(s)] == name[c_len(s)]);
        assert(name.contains(0u8));
    } else if c_len(s) > name.len() {
        assert(s[name.len() as int] == 0u8);
    }
    assert(s.take(name.len() as int) =~= name);
}

/// Whether a port system call succeeded: every result but -1 counts.
pub fn port_call_ok(ret: isize) -> (r: bool)
    ensures
        r == (ret != -1),
{
    ret != -1
}

/// The message that `read_port` delivered: nothing unless the sender is
/// positive; otherwise the C string in `buf` as text, or nothing when it is
/// not valid UTF-8.
pub fn decode_port_message(sender: isize, buf: &[u8]) -> (r: Option<(u64, String)>)
    ensures
        sender <= 0 ==> r is None,
        sender > 0 ==> (r is Some <==> valid_utf8(buf@.take(c_len(buf@)))),
        r matches Some((s, m)) ==> s == sender as u64 && encode_utf8(m@) == buf@.take(c_len(buf@)),
{
    if sender <= 0 {
        return None;
    }
    let n = strlen(buf);
    proof {
        lemma_c_len(buf@);
    }
    let prefix = &buf[0..n];
    proof {
        assert(prefix@ =~= buf@.take(c_len(buf@)));
    }
    match utf8_str(prefix) {
        Some(text) => {
            let msg = text.to_owned();
            Some((sender as u64, msg))
        },
        None => None,
    }
}

} // verus!
