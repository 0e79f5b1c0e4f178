//! The integrity checksum around a payload: a configured number of
//! trailing bytes, each the xor over all payload bytes, every byte
//! rotated left by a position-dependent amount.
//!
//! The suffix can reveal corruption to a reader that recomputes it, but
//! it corrects nothing, and stripping it does not verify it: decoding
//! only splits the suffix off. The sole detected failure is data shorter
//! than the configured suffix.

use crate::bitpack::pow2_u16;
use crate::errors::CodecError;
use vstd::prelude::*;
use vstd::arithmetic::div_mod::{
    lemma_add_mod_noop, lemma_mod_division_less_than_divisor, lemma_multiply_divide_lt,
};
use vstd::arithmetic::mul::{lemma_mul_inequality, lemma_mul_is_distributive_sub_other_way};
use vstd::arithmetic::power2::{lemma2_to64, lemma_pow2_adds, lemma_pow2_pos, pow2};
use vstd::slice::{slice_subrange, slice_to_vec};

verus! {

/// `b` rotated left by `r` bit positions (`r < 8`): the high `r` bits
/// wrap around to the low end.
pub open spec fn rotl8(b: u8, r: nat) -> u8
    recommends
        r < 8,
{
    (((b as nat) % pow2((8 - r) as nat)) * pow2(r) + (b as nat) / pow2((8 - r) as nat)) as u8
}

/// The xor of the first `n` rotated data bytes for checksum position `i`:
/// byte `j` enters rotated left by `(i + j) % 8`.
pub open spec fn checksum_prefix(data: Seq<u8>, i: nat, n: nat) -> u8
    decreases n,
{
    if n == 0 {
        0
    } else {
        checksum_prefix(data, i, (n - 1) as nat) ^ rotl8(data[n - 1], ((i + n - 1) as nat) % 8)
    }
}

/// Checksum byte `i` of `data`: the xor over all data bytes, each
/// rotated left by `(i + j) % 8` for its position `j`.
pub open spec fn checksum_byte(data: Seq<u8>, i: nat) -> u8 {
    checksum_prefix(data, i, data.len())
}

/// The whole checksum suffix of the given length.
pub open spec fn checksum_suffix(data: Seq<u8>, parity: nat) -> Seq<u8> {
    Seq::new(parity, |i: int| checksum_byte(data, i as nat))
}

/// What encoding produces: the data followed by its checksum suffix.
pub open spec fn encode_spec(data: Seq<u8>, parity: nat) -> Seq<u8> {
    data + checksum_suffix(data, parity)
}

/// Stripping what `encode` appended restores the data exactly: the
/// encoded sequence carries `parity` extra bytes and begins with the
/// data, so a decode of it always succeeds and yields the data.
pub proof fn lemma_checksum_round_trip(data: Seq<u8>, parity: nat)
    ensures
        encode_spec(data, parity).len() == data.len() + parity,
        encode_spec(data, parity).subrange(0, data.len() as int) == data,
{
    assert(encode_spec(data, parity).subrange(0, data.len() as int) =~= data);
}

/// Rotate `b` left by `r` bit positions.
fn rotate_byte(b: u8, r: u8) -> (res: u8)
    requires
        r < 8,
    ensures
        res == rotl8(b, r as nat),
{
    let q: u16 = pow2_u16(8 - r);
    let p: u16 = pow2_u16(r);
    proof {
        lemma_pow2_pos((8 - r) as nat);
        lemma_pow2_pos(r as nat);
        lemma_pow2_adds((8 - r) as nat, r as nat);
        lemma2_to64();
        lemma_mod_division_less_than_divisor(b as int, q as int);
        assert(((b as int) % (q as int)) * (p as int) <= (q as int - 1) * (p as int)) by {
            lemma_mul_inequality((b as int) % (q as int), q as int - 1, p as int);
        }
        assert((q as int - 1) * (p as int) == q as int * p as int - p as int) by {
            lemma_mul_is_distributive_sub_other_way(p as int, q as int, 1);
        }
        assert((b as int) / (q as int) < p as int) by {
            lemma_multiply_divide_lt(b as int, q as int, p as int);
        }
    }
    let lo: u16 = ((b as u16) % q) * p;
    let hi: u16 = (b as u16) / q;
    (lo + hi) as u8
}

/// Appends and strips a checksum suffix of a configured length. The
/// suffix detects but never repairs corruption, and this codec does not
/// even check it on decode: only a missing suffix is reported.
pub struct IntegrityChecksum {
    parity_bytes: usize,
}

impl IntegrityChecksum {
    /// The configured number of checksum bytes.
    pub closed spec fn parity_len(&self) -> nat {
        self.parity_bytes as nat
    }

    pub fn new(parity: usize) -> (c: Self)
        ensures
            c.parity_len() == parity,
    {
        IntegrityChecksum { parity_bytes: parity }
    }

    /// The data with its checksum suffix appended.
    pub fn encode(&self, data: &[u8]) -> (encoded: Vec<u8>)
        ensures
            encoded@ == encode_spec(data@, self.parity_len()),
    {
        let mut encoded = slice_to_vec(data);
        let data_len = data.len();
        let mut i: usize = 0;
        while i < self.parity_bytes
            invariant
                i <= self.parity_bytes,
                data_len == data@.len(),
                encoded@ == data@ + checksum_suffix(data@, i as nat),
            decreases self.parity_bytes - i,
        {
            let mut parity: u8 = 0;
            let mut j: usize = 0;
            while j < data_len
                invariant
                    j <= data@.len(),
                    data_len == data@.len(),
                    parity == checksum_prefix(data@, i as nat, j as nat),
                decreases data@.len() - j,
            {
                let r: usize = ((i % 8) + (j % 8)) % 8;
                proof {
                    lemma_mod_division_less_than_divisor(i as int, 8);
                    lemma_mod_division_less_than_divisor(j as int, 8);
                    lemma_mod_division_less_than_divisor((i % 8 + j % 8) as int, 8);
                    lemma_add_mod_noop(i as int, j as int, 8);
                }
                let rot = rotate_byte(data[j], r as u8);
                parity = parity ^ rot;
                j = j + 1;
            }
            encoded.push(parity);
            i = i + 1;
            proof {
                assert(checksum_suffix(data@, i as nat) =~= checksum_suffix(
                    data@,
                    (i - 1) as nat,
                ).push(checksum_byte(data@, (i - 1) as nat)));
                assert(encoded@ =~= data@ + checksum_suffix(data@, i as nat));
            }
        }
        proof {
            assert(encoded@ =~= encode_spec(data@, self.parity_len()));
        }
        encoded
    }

    /// Splits the checksum suffix off and returns the leading data; the
    /// suffix bytes are discarded without verification. Fails exactly
    /// when the data is shorter than the configured suffix.
    pub fn decode(&self, data: &[u8]) -> (r: Result<Vec<u8>, CodecError>)
        ensures
            match r {
                Ok(payload) => data@.len() >= self.parity_len() && payload@ == data@.subrange(
                    0,
                    data@.len() - self.parity_len(),
                ),
                Err(e) => data@.len() < self.parity_len() && e == CodecError::TooShort,
            },
    {
        if data.len() < self.parity_bytes {
            return Err(CodecError::TooShort);
        }
        let keep = data.len() - self.parity_bytes;
        let payload = slice_to_vec(slice_subrange(data, 0, keep));
        Ok(payload)
    }
}

} // verus!
