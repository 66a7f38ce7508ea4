use vstd::prelude::*;
use crate::codec::{desc_cp, enc_desc, ser_desc};
use crate::desc::{CommandDesc, CommandDescView};

verus! {

/// The FNV-1a 64-bit offset basis.
pub const FNV_OFFSET: u64 = 0xcbf29ce484222325;

/// The FNV-1a 64-bit prime.
pub const FNV_PRIME: u64 = 0x100000001b3;

/// One FNV-1a step: fold one byte into the running hash.
pub open spec fn fnv_step(h: u64, b: u8) -> u64 {
    (h ^ (b as u64)).wrapping_mul(FNV_PRIME)
}

/// The FNV-1a hash of the bytes from position `i` on, starting from `h`.
pub open spec fn spec_fnv1a_from(s: Seq<u8>, i: int, h: u64) -> u64
    decreases s.len() - i,
{
    if i < 0 || i >= s.len() {
        h
    } else {
        spec_fnv1a_from(s, i + 1, fnv_step(h, s[i]))
    }
}

/// The FNV-1a 64-bit hash of a byte sequence: a deterministic,
/// non-cryptographic digest, stable across runs and machines.
pub open spec fn spec_fnv1a(s: Seq<u8>) -> u64 {
    spec_fnv1a_from(s, 0, FNV_OFFSET)
}

/// Computes the FNV-1a 64-bit hash of the bytes.
#[verifier::loop_isolation(false)]
pub fn fnv1a_hash(bytes: &Vec<u8>) -> (r: u64)
    ensures
        r == spec_fnv1a(bytes@),
{
    let mut h: u64 = FNV_OFFSET;
    for i in 0..bytes.len()
        invariant
            spec_fnv1a_from(bytes@, i as int, h) == spec_fnv1a(bytes@),
    {
        h = (h ^ (bytes[i] as u64)).wrapping_mul(FNV_PRIME);
    }
    h
}

/// The uppercase hexadecimal digit for a value below 16.
pub open spec fn hex_digit(d: u64) -> char
    recommends
        d < 16,
{
    if d == 0 {
        '0'
    } else if d == 1 {
        '1'
    } else if d == 2 {
        '2'
    } else if d == 3 {
        '3'
    } else if d == 4 {
        '4'
    } else if d == 5 {
        '5'
    } else if d == 6 {
        '6'
    } else if d == 7 {
        '7'
    } else if d == 8 {
        '8'
    } else if d == 9 {
        '9'
    } else if d == 10 {
        'A'
    } else if d == 11 {
        'B'
    } else if d == 12 {
        'C'
    } else if d == 13 {
        'D'
    } else if d == 14 {
        'E'
    } else {
        'F'
    }
}

/// A 64-bit value as 16 uppercase hexadecimal digits, most significant
/// nibble first, zero-padded.
pub open spec fn spec_hex16(h: u64) -> Seq<char> {
    Seq::new(16, |i: int| hex_digit((h >> (((15 - i) * 4) as u64)) & 0xf))
}

fn hex_char(d: u64) -> (c: char)
    requires
        d < 16,
    ensures
        c == hex_digit(d),
{
    if d == 0 {
        '0'
    } else if d == 1 {
        '1'
    } else if d == 2 {
        '2'
    } else if d == 3 {
        '3'
    } else if d == 4 {
        '4'
    } else if d == 5 {
        '5'
    } else if d == 6 {
        '6'
    } else if d == 7 {
        '7'
    } else if d == 8 {
        '8'
    } else if d == 9 {
        '9'
    } else if d == 10 {
        'A'
    } else if d == 11 {
        'B'
    } else if d == 12 {
        'C'
    } else if d == 13 {
        'D'
    } else if d == 14 {
        'E'
    } else {
        'F'
    }
}

/// Formats a 64-bit value as 16 uppercase hexadecimal digits.
#[verifier::loop_isolation(false)]
pub fn to_hex16(h: u64) -> (r: String)
    ensures
        r@ == spec_hex16(h),
        r@.len() == 16,
{
    let mut out = String::new();
    for i in 0..16usize
        invariant
            out@ =~= spec_hex16(h).take(i as int),
    {
        let sh: u64 = ((15 - i) * 4) as u64;
        let d: u64 = (h >> sh) & 0xf;
        proof {
            assert((h >> sh) & 0xf < 16) by (bit_vector);
            assert(spec_hex16(h)[i as int] == hex_digit(d));
            assert(spec_hex16(h).take(i as int + 1) =~= spec_hex16(h).take(i as int).push(
                spec_hex16(h)[i as int],
            ));
        }
        let c = hex_char(d);
        crate::codec::append_char(&mut out, c);
    }
    proof {
        assert(spec_hex16(h).take(16) =~= spec_hex16(h));
    }
    out
}

/// The fingerprint of a descriptor: the FNV-1a hash of its wire encoding,
/// as 16 uppercase hexadecimal digits. It is a function of the descriptor
/// value alone, so it is byte-equal across invocations of the same build.
pub open spec fn spec_fingerprint(v: CommandDescView) -> Seq<char> {
    spec_hex16(spec_fnv1a(enc_desc(desc_cp(v))))
}

/// Fingerprint stability: the cache key is a function of the descriptor
/// value alone, so equal descriptors yield byte-equal keys, in this and in
/// every other invocation of the same build.
pub proof fn lemma_fingerprint_stable(a: CommandDescView, b: CommandDescView)
    requires
        a == b,
    ensures
        spec_fingerprint(a) == spec_fingerprint(b),
{
}

impl CommandDesc {
    /// The fingerprint under which this descriptor is stored on disk.
    pub fn cache_key(&self) -> (r: String)
        ensures
            r@ == spec_fingerprint(self@),
            r@.len() == 16,
    {
        let mut bytes: Vec<u8> = Vec::new();
        proof {
            assert(bytes@ + enc_desc(desc_cp(self@)) =~= enc_desc(desc_cp(self@)));
        }
        ser_desc(&mut bytes, self);
        let h = fnv1a_hash(&bytes);
        to_hex16(h)
    }
}

} // verus!
