//! The optical carrier: owns one RGBA pixel buffer (row-major, four
//! bytes per pixel) and embeds or extracts a framed payload in the low
//! two bits of every blue channel byte, traversing pixels sequentially.
//!
//! The wire format, bit exact: a frame is `MAGIC` (four bytes, "TENT"),
//! a big-endian 32-bit length of the encoded payload, then the encoded
//! payload (raw payload plus its checksum suffix). The frame is split
//! into 2-bit symbols, most significant first, one symbol per pixel.

use crate::bitpack::{
    byte_symbols, bytes_to_symbols, bytes_to_symbols_spec, lemma_bytes_to_symbols_bounded,
    group_value, lemma_digits_value, lemma_valid_width_bounds, symbols_to_bytes,
    symbols_to_bytes_spec, valid_width,
};
use crate::checksum::{encode_spec, lemma_checksum_round_trip, IntegrityChecksum};
use crate::errors::CodecError;
use crate::walk::PrimeWalk;
use vstd::prelude::*;
use vstd::arithmetic::div_mod::{
    lemma_div_multiples_vanish, lemma_fundamental_div_mod, lemma_fundamental_div_mod_converse,
    lemma_mod_division_less_than_divisor, lemma_mod_multiples_vanish, lemma_multiply_divide_lt,
    lemma_small_mod,
};
use vstd::arithmetic::div_mod::{lemma_div_denominator, lemma_div_is_ordered};
use vstd::arithmetic::mul::{lemma_mul_inequality, lemma_mul_is_commutative};
use vstd::arithmetic::power2::lemma2_to64;
use vstd::pervasive::VecAdditionalExecFns;
use vstd::slice::{slice_subrange, slice_to_vec};

verus! {

/// Checksum bytes appended to every payload before framing.
pub const PARITY_LEN: usize = 16;

/// Bits embedded per blue-channel byte.
pub const SYMBOL_WIDTH: u8 = 2;

/// The seed of the carrier's position walk.
pub const WALK_SEED: u64 = 0x5445_4E54;

/// The four magic bytes that open every frame: "TENT".
pub open spec fn magic_seq() -> Seq<u8> {
    seq![0x54u8, 0x45u8, 0x4Eu8, 0x54u8]
}

/// How many blue-channel slots a buffer of `len` bytes offers: one per
/// byte at offset 2, 6, 10, ... — the buffer need not be whole pixels.
pub open spec fn num_slots(len: nat) -> nat {
    if len > 2 {
        ((len - 3) / 4 + 1) as nat
    } else {
        0
    }
}

/// The low two bits of every blue-channel byte, in buffer order.
pub open spec fn blue_symbols(pixels: Seq<u8>) -> Seq<u8> {
    Seq::new(num_slots(pixels.len()), |t: int| ((pixels[2 + 4 * t] as nat) % 4) as u8)
}

/// The byte stream an extraction reads: the blue-channel symbols of the
/// whole buffer, joined four to a byte.
pub open spec fn decoded_stream(pixels: Seq<u8>) -> Seq<u8> {
    symbols_to_bytes_spec(blue_symbols(pixels), 2)
}

/// The first position at or after `i` where the four magic bytes
/// occur, if any: every window that fits entirely in the stream is
/// examined, the final one included.
pub open spec fn find_magic_from(data: Seq<u8>, i: nat) -> Option<nat>
    decreases data.len() - i,
{
    if i + 4 > data.len() {
        Option::None
    } else if data.subrange(i as int, i as int + 4) == magic_seq() {
        Option::Some(i)
    } else {
        find_magic_from(data, (i + 1) as nat)
    }
}

/// A four-byte big-endian unsigned value.
pub open spec fn be32(b: Seq<u8>) -> nat
    recommends
        b.len() == 4,
{
    (b[0] as nat) * 0x1000000 + (b[1] as nat) * 0x10000 + (b[2] as nat) * 0x100 + (b[3] as nat)
}

/// The four big-endian bytes of a value below `2^32`.
pub open spec fn be32_bytes(n: nat) -> Seq<u8>
    recommends
        n < 0x1_0000_0000,
{
    seq![
        ((n / 0x1000000) % 0x100) as u8,
        ((n / 0x10000) % 0x100) as u8,
        ((n / 0x100) % 0x100) as u8,
        (n % 0x100) as u8,
    ]
}

/// Reading back the four big-endian bytes of a value restores it.
pub proof fn lemma_be32_round_trip(n: nat)
    requires
        n < 0x1_0000_0000,
    ensures
        be32(be32_bytes(n)) == n,
{
    lemma_fundamental_div_mod(n as int, 0x100);
    lemma_fundamental_div_mod((n / 0x100) as int, 0x100);
    lemma_fundamental_div_mod((n / 0x10000) as int, 0x100);
    lemma_div_denominator(n as int, 0x100, 0x100);
    lemma_div_denominator(n as int, 0x10000, 0x100);
    assert(n / 0x1000000 < 0x100) by {
        lemma_multiply_divide_lt(n as int, 0x1000000, 0x100);
    }
    lemma_small_mod(n / 0x1000000, 0x100);
}

/// The complete frame of a payload: magic, big-endian length of the
/// encoded payload, then the encoded payload itself.
pub open spec fn frame_spec(payload: Seq<u8>) -> Seq<u8> {
    magic_seq() + be32_bytes((payload.len() + PARITY_LEN) as nat) + encode_spec(
        payload,
        PARITY_LEN as nat,
    )
}

/// How many blue-channel slots the frame of a payload occupies.
pub open spec fn frame_slots(payload: Seq<u8>) -> nat {
    4 * frame_spec(payload).len()
}

/// Whether a payload's frame fits a buffer of the given byte length.
pub open spec fn payload_fits(payload: Seq<u8>, buf_len: nat) -> bool {
    frame_slots(payload) <= num_slots(buf_len)
}

/// A blue-channel byte with a symbol written into its low two bits.
pub open spec fn write_symbol(pixel: u8, sym: u8) -> u8 {
    (((pixel as nat) / 4) * 4 + (sym as nat) % 4) as u8
}

/// The buffer after the symbols are written into consecutive
/// blue-channel slots; all other bytes keep their values.
pub open spec fn inject_pixels(pixels: Seq<u8>, syms: Seq<u8>) -> Seq<u8> {
    Seq::new(
        pixels.len(),
        |i: int|
            if i % 4 == 2 && (i - 2) / 4 < syms.len() {
                write_symbol(pixels[i], syms[(i - 2) / 4])
            } else {
                pixels[i]
            },
    )
}

/// The buffer after a successful injection of a payload.
pub open spec fn inject_spec(pixels: Seq<u8>, payload: Seq<u8>) -> Seq<u8> {
    inject_pixels(pixels, bytes_to_symbols_spec(frame_spec(payload), 2))
}

/// What extraction returns for a buffer: rebuild the byte stream from
/// the blue channel, find the first magic, read the length, slice the
/// encoded payload, and strip the checksum suffix.
pub open spec fn extract_spec(pixels: Seq<u8>) -> Result<Seq<u8>, CodecError> {
    let data = decoded_stream(pixels);
    match find_magic_from(data, 0) {
        Option::None => Result::Err(CodecError::NoPayloadFound),
        Option::Some(pos) => if pos + 8 > data.len() {
            Result::Err(CodecError::TruncatedHeader)
        } else {
            let length = be32(data.subrange(pos as int + 4, pos as int + 8));
            if pos + 8 + length > data.len() {
                Result::Err(CodecError::PayloadOverrun)
            } else if length < PARITY_LEN {
                Result::Err(CodecError::TooShort)
            } else {
                Result::Ok(
                    data.subrange(
                        pos as int + 8,
                        pos as int + 8 + (length as int) - (PARITY_LEN as int),
                    ),
                )
            }
        },
    }
}

/// Find the first magic occurrence in a byte stream.
fn find_magic(data: &[u8]) -> (r: Option<usize>)
    ensures
        match r {
            Option::Some(i) => find_magic_from(data@, 0) == Option::Some(i as nat) && i as nat + 4
                <= data@.len(),
            Option::None => find_magic_from(data@, 0) is None,
        },
{
    let n = data.len();
    let end = if n >= 4 {
        n - 3
    } else {
        0
    };
    let mut i: usize = 0;
    while i < end
        invariant
            i <= end,
            n == data@.len(),
            n >= 4 ==> end == n - 3,
            n < 4 ==> end == 0,
            find_magic_from(data@, 0) == find_magic_from(data@, i as nat),
        decreases end - i,
    {
        if data[i] == 0x54 && data[i + 1] == 0x45 && data[i + 2] == 0x4E && data[i + 3] == 0x54 {
            proof {
                assert(data@.subrange(i as int, i as int + 4) =~= magic_seq());
            }
            return Some(i);
        }
        proof {
            if data@.subrange(i as int, i as int + 4) == magic_seq() {
                assert(data@[i as int] == magic_seq()[0]);
                assert(data@[i as int + 1] == magic_seq()[1]);
                assert(data@[i as int + 2] == magic_seq()[2]);
                assert(data@[i as int + 3] == magic_seq()[3]);
                assert(false);
            }
        }
        i = i + 1;
    }
    None
}

/// Owns one pixel buffer and runs frame-level embedding and extraction
/// against its blue channel. Encode and decode are independent,
/// stateless-between-calls operations over whatever buffer is held.
pub struct OpticalCarrier {
    width: u32,
    height: u32,
    pixel_data: Vec<u8>,
    prime_walk: PrimeWalk,
    rs: IntegrityChecksum,
}

impl OpticalCarrier {
    /// The held pixel bytes.
    pub closed spec fn pixels(&self) -> Seq<u8> {
        self.pixel_data@
    }

    /// The declared width in pixels.
    pub closed spec fn width_spec(&self) -> u32 {
        self.width
    }

    /// The declared height in pixels.
    pub closed spec fn height_spec(&self) -> u32 {
        self.height
    }

    /// The checksum length is the frame format's, and the walk's prime
    /// table is intact.
    pub closed spec fn wf(&self) -> bool {
        self.rs.parity_len() == PARITY_LEN && self.prime_walk.wf()
    }

    /// A carrier over a zero-filled buffer of the given dimensions.
    pub fn new(width: u32, height: u32) -> (c: Self)
        requires
            (width as nat) * (height as nat) * 4 <= u32::MAX,
        ensures
            c.wf(),
            c.width_spec() == width,
            c.height_spec() == height,
            c.pixels() == Seq::new((width as nat) * (height as nat) * 4, |i: int| 0u8),
    {
        let len: u32 = width * height * 4;
        let len_us: usize = len as usize;
        let mut data: Vec<u8> = Vec::new();
        let mut i: usize = 0;
        while i < len_us
            invariant
                i <= len_us,
                data@.len() == i,
                forall|t: int| 0 <= t < i ==> data@[t] == 0u8,
            decreases len_us - i,
        {
            data.push(0);
            i = i + 1;
        }
        proof {
            assert(data@ =~= Seq::new((width as nat) * (height as nat) * 4, |t: int| 0u8));
        }
        OpticalCarrier {
            width,
            height,
            pixel_data: data,
            prime_walk: PrimeWalk::new(WALK_SEED),
            rs: IntegrityChecksum::new(PARITY_LEN),
        }
    }

    /// Replace the held buffer wholesale with raw RGBA bytes. The length
    /// is not validated against the declared dimensions: later traversal
    /// simply follows the buffer's own length.
    pub fn ingest_frame(&mut self, data: &[u8])
        ensures
            final(self).pixels() == data@,
            final(self).width_spec() == old(self).width_spec(),
            final(self).height_spec() == old(self).height_spec(),
            final(self).wf() == old(self).wf(),
    {
        self.pixel_data = slice_to_vec(data);
    }

    /// The declared dimensions, width then height.
    pub fn dimensions(&self) -> (d: (u32, u32))
        ensures
            d.0 == self.width_spec(),
            d.1 == self.height_spec(),
    {
        (self.width, self.height)
    }

    /// A read-only view of the held buffer.
    pub fn get_pixel_data(&self) -> (d: &[u8])
        ensures
            d@ == self.pixels(),
    {
        self.pixel_data.as_slice()
    }

    /// The low two bits of every blue-channel byte, in buffer order.
    fn extract_blue_lsb(&self) -> (bits: Vec<u8>)
        ensures
            bits@ == blue_symbols(self.pixels()),
    {
        let len = self.pixel_data.len();
        let slots: usize = if len > 2 {
            (len - 3) / 4 + 1
        } else {
            0
        };
        let mut bits: Vec<u8> = Vec::new();
        let mut t: usize = 0;
        while t < slots
            invariant
                t <= slots,
                len == self.pixel_data@.len(),
                slots as nat == num_slots(self.pixels().len()),
                bits@.len() == t,
                forall|u: int| 0 <= u < t ==> bits@[u] == blue_symbols(self.pixels())[u],
            decreases slots - t,
        {
            proof {
                lemma_fundamental_div_mod((len - 3) as int, 4);
                lemma_mod_division_less_than_divisor((len - 3) as int, 4);
            }
            let idx: usize = 2 + 4 * t;
            let sym = self.pixel_data[idx] % 4;
            bits.push(sym);
            t = t + 1;
        }
        proof {
            assert(bits@ =~= blue_symbols(self.pixels()));
        }
        bits
    }

    /// Recover the payload embedded in the held buffer: read the blue
    /// channel's low bits, join them to bytes, locate the first magic,
    /// read the length, slice the encoded payload and strip its
    /// checksum suffix. Each failure names what was missing; none
    /// changes the buffer.
    pub fn extract_payload(&self) -> (r: Result<Vec<u8>, CodecError>)
        requires
            self.wf(),
        ensures
            match r {
                Ok(p) => extract_spec(self.pixels()) == Ok::<Seq<u8>, CodecError>(p@),
                Err(e) => extract_spec(self.pixels()) == Err::<Seq<u8>, CodecError>(e),
            },
    {
        let bits = self.extract_blue_lsb();
        proof {
            lemma2_to64();
            assert(valid_width(2));
        }
        let raw = symbols_to_bytes(bits.as_slice(), SYMBOL_WIDTH);
        let ghost data = decoded_stream(self.pixels());
        proof {
            assert(raw@ == data);
        }
        let magic_pos: usize = match find_magic(raw.as_slice()) {
            Option::None => {
                return Err(CodecError::NoPayloadFound);
            },
            Option::Some(p) => p,
        };
        let n = raw.len();
        if n - magic_pos < 8 {
            return Err(CodecError::TruncatedHeader);
        }
        let b0 = raw[magic_pos + 4];
        let b1 = raw[magic_pos + 5];
        let b2 = raw[magic_pos + 6];
        let b3 = raw[magic_pos + 7];
        let length: u32 = (b0 as u32) * 0x1000000 + (b1 as u32) * 0x10000 + (b2 as u32) * 0x100
            + (b3 as u32);
        proof {
            assert(be32(data.subrange(magic_pos as int + 4, magic_pos as int + 8)) == length);
        }
        let length_us: usize = length as usize;
        if length_us > n - (magic_pos + 8) {
            return Err(CodecError::PayloadOverrun);
        }
        let encoded = slice_subrange(raw.as_slice(), magic_pos + 8, magic_pos + 8 + length_us);
        match self.rs.decode(encoded) {
            Ok(payload) => {
                proof {
                    assert(payload@ =~= data.subrange(
                        magic_pos as int + 8,
                        magic_pos as int + 8 + (length as int) - (PARITY_LEN as int),
                    ));
                }
                Ok(payload)
            },
            Err(e) => Err(e),
        }
    }

    /// Embed a payload into the held buffer: append its checksum
    /// suffix, frame it behind the magic and length, split the frame
    /// into 2-bit symbols and write them into consecutive blue-channel
    /// slots. Capacity is checked before the first write, so a buffer
    /// too small is reported with `CapacityExceeded` and left unchanged;
    /// a payload that fits is embedded completely.
    pub fn inject_payload(&mut self, payload: &[u8]) -> (r: Result<(), CodecError>)
        requires
            old(self).wf(),
            payload@.len() + PARITY_LEN <= u32::MAX,
        ensures
            final(self).wf(),
            final(self).width_spec() == old(self).width_spec(),
            final(self).height_spec() == old(self).height_spec(),
            payload_fits(payload@, old(self).pixels().len()) ==> r == Ok::<(), CodecError>(())
                && final(self).pixels() == inject_spec(old(self).pixels(), payload@),
            !payload_fits(payload@, old(self).pixels().len()) ==> r == Err::<(), CodecError>(
                CodecError::CapacityExceeded,
            ) && final(self).pixels() == old(self).pixels(),
    {
        let encoded = self.rs.encode(payload);
        let mut frame: Vec<u8> = Vec::new();
        frame.push(0x54);
        frame.push(0x45);
        frame.push(0x4E);
        frame.push(0x54);
        let el: u32 = encoded.len() as u32;
        frame.push((el / 0x1000000) as u8);
        frame.push(((el / 0x10000) % 0x100) as u8);
        frame.push(((el / 0x100) % 0x100) as u8);
        frame.push((el % 0x100) as u8);
        proof {
            lemma_small_mod((el as nat) / 0x1000000, 0x100);
            assert((el as nat) / 0x1000000 < 0x100) by {
                lemma_multiply_divide_lt(el as int, 0x1000000, 0x100);
            }
        }
        let mut ei: usize = 0;
        while ei < encoded.len()
            invariant
                ei <= encoded@.len(),
                frame@.len() == 8 + ei,
                frame@ == (magic_seq() + be32_bytes((payload@.len() + PARITY_LEN) as nat)
                    + encoded@.take(ei as int)),
                encoded@ == encode_spec(payload@, PARITY_LEN as nat),
                payload@.len() + PARITY_LEN <= u32::MAX,
            decreases encoded@.len() - ei,
        {
            frame.push(encoded[ei]);
            proof {
                assert(encoded@.take(ei + 1) =~= encoded@.take(ei as int).push(
                    encoded@[ei as int],
                ));
            }
            ei = ei + 1;
        }
        proof {
            assert(encoded@.take(encoded@.len() as int) =~= encoded@);
            assert(frame@ =~= frame_spec(payload@));
        }
        let len = self.pixel_data.len();
        let slots: usize = if len > 2 {
            (len - 3) / 4 + 1
        } else {
            0
        };
        proof {
            assert(slots as nat == num_slots(old(self).pixels().len()));
        }
        let needed: u64 = (frame.len() as u64) * 4;
        if needed > slots as u64 {
            return Err(CodecError::CapacityExceeded);
        }
        proof {
            lemma2_to64();
            assert(valid_width(2));
        }
        let syms = bytes_to_symbols(frame.as_slice(), SYMBOL_WIDTH);
        let ghost old_pixels = old(self).pixels();
        let ghost symbols = syms@;
        proof {
            lemma_bytes_to_symbols_bounded(frame@, 2);
        }
        let total = syms.len();
        let mut t: usize = 0;
        while t < total
            invariant
                t <= total,
                total == symbols.len(),
                symbols == syms@,
                symbols.len() <= num_slots(old_pixels.len()),
                old_pixels.len() <= usize::MAX,
                forall|u: int| 0 <= u < symbols.len() ==> (#[trigger] symbols[u] as nat) < 4,
                self.pixel_data@.len() == old_pixels.len(),
                self.width == old(self).width,
                self.height == old(self).height,
                self.rs == old(self).rs,
                self.prime_walk == old(self).prime_walk,
                forall|i: int|
                    0 <= i < old_pixels.len() ==> self.pixel_data@[i] == (if i % 4 == 2 && (i - 2)
                        / 4 < t {
                        write_symbol(old_pixels[i], symbols[(i - 2) / 4])
                    } else {
                        old_pixels[i]
                    }),
            decreases total - t,
        {
            proof {
                lemma_slot_index_bounds(old_pixels.len(), t as nat);
            }
            let idx: usize = 2 + 4 * t;
            let pix = self.pixel_data[idx];
            let sym = syms[t];
            proof {
                lemma_slot_address(t as nat);
                lemma_small_mod(sym as nat, 4);
            }
            self.pixel_data.set(idx, (pix / 4) * 4 + sym);
            proof {
                let updated = self.pixel_data@;
                assert forall|i: int| 0 <= i < old_pixels.len() implies updated[i] == (if i % 4
                    == 2 && (i - 2) / 4 < t + 1 {
                    write_symbol(old_pixels[i], symbols[(i - 2) / 4])
                } else {
                    old_pixels[i]
                }) by {
                    if i % 4 == 2 {
                        lemma_slot_form(i);
                    }
                }
            }
            t = t + 1;
        }
        proof {
            assert(self.pixel_data@ =~= inject_pixels(old_pixels, symbols));
            assert(payload_fits(payload@, old_pixels.len()));
        }
        Ok(())
    }
}

/// A slot index `t` with `t < num_slots(len)` addresses byte `2 + 4 t`,
/// which lies inside the buffer.
proof fn lemma_slot_index_bounds(len: nat, t: nat)
    requires
        t < num_slots(len),
    ensures
        2 + 4 * t < len,
{
    lemma_fundamental_div_mod((len - 3) as int, 4);
    lemma_mod_division_less_than_divisor((len - 3) as int, 4);
    assert(4 * t <= 4 * ((len - 3) as int / 4)) by {
        lemma_mul_inequality(t as int, (len - 3) as int / 4, 4);
        lemma_mul_is_commutative(t as int, 4);
        lemma_mul_is_commutative((len - 3) as int / 4, 4);
    }
}

/// Capacity boundary, made explicit: a payload fits exactly when the
/// frame's `8 + len + 16` bytes, at four symbols per byte, do not
/// exceed the buffer's blue-channel slots. Equality is a fit; one more
/// payload byte is not.
pub proof fn lemma_capacity_formula(payload: Seq<u8>, buf_len: nat)
    ensures
        payload_fits(payload, buf_len) <==> 4 * (payload.len() + 24) <= num_slots(buf_len),
{
    lemma_checksum_round_trip(payload, PARITY_LEN as nat);
    assert(frame_spec(payload).len() == payload.len() + 24);
}

/// A buffer of whole RGBA pixels offers exactly one slot per pixel.
pub proof fn lemma_num_slots_whole_pixels(pixel_count: nat)
    requires
        pixel_count >= 1,
    ensures
        num_slots(4 * pixel_count) == pixel_count,
{
    lemma_fundamental_div_mod_converse((4 * pixel_count - 3) as int, 4, pixel_count as int - 1, 1);
}

/// The scan from `i` finds the first occurrence at or after `i`.
proof fn lemma_find_magic_from_first(data: Seq<u8>, i: nat)
    ensures
        match find_magic_from(data, i) {
            Option::Some(p) => i <= p && p + 4 <= data.len() && data.subrange(
                p as int,
                p as int + 4,
            ) == magic_seq() && forall|q: int|
                i <= q < p ==> #[trigger] data.subrange(q, q + 4) != magic_seq(),
            Option::None => forall|q: int|
                i <= q && q + 4 <= data.len() ==> #[trigger] data.subrange(q, q + 4)
                    != magic_seq(),
        },
    decreases data.len() - i,
{
    if i + 4 > data.len() {
    } else if data.subrange(i as int, i as int + 4) == magic_seq() {
    } else {
        lemma_find_magic_from_first(data, (i + 1) as nat);
    }
}

/// Magic scan correctness: the scan locates the first position where
/// the magic bytes occur — noise before the true frame cannot displace
/// it — and reports a miss exactly when no window of the stream holds
/// the magic.
pub proof fn lemma_find_magic_first(data: Seq<u8>)
    ensures
        match find_magic_from(data, 0) {
            Option::Some(p) => p + 4 <= data.len() && data.subrange(p as int, p as int + 4)
                == magic_seq() && forall|q: int|
                0 <= q < p ==> #[trigger] data.subrange(q, q + 4) != magic_seq(),
            Option::None => forall|q: int|
                0 <= q && q + 4 <= data.len() ==> #[trigger] data.subrange(q, q + 4)
                    != magic_seq(),
        },
{
    lemma_find_magic_from_first(data, 0);
}

/// Writing symbols into consecutive slots makes those slots read the
/// symbols back; the buffer keeps its length.
proof fn lemma_injected_blue(pixels: Seq<u8>, syms: Seq<u8>)
    requires
        syms.len() <= num_slots(pixels.len()),
        forall|u: int| 0 <= u < syms.len() ==> (#[trigger] syms[u] as nat) < 4,
    ensures
        inject_pixels(pixels, syms).len() == pixels.len(),
        forall|t: int|
            0 <= t < syms.len() ==> #[trigger] blue_symbols(inject_pixels(pixels, syms))[t]
                == syms[t],
{
    let new_pixels = inject_pixels(pixels, syms);
    assert forall|t: int| 0 <= t < syms.len() implies #[trigger] blue_symbols(new_pixels)[t]
        == syms[t] by {
        lemma_slot_address(t as nat);
        let pix = pixels[2 + 4 * t];
        assert(new_pixels[2 + 4 * t] == write_symbol(pix, syms[t]));
        lemma_mod_multiples_vanish(((pix as nat) / 4) as int, ((syms[t] as nat) % 4) as int, 4);
        lemma_mul_is_commutative(((pix as nat) / 4) as int, 4);
        lemma_small_mod((syms[t] as nat) % 4, 4);
        lemma_small_mod(syms[t] as nat, 4);
    }
}

/// After a fitting injection, the decoded stream begins with the frame.
proof fn lemma_injected_prefix(pixels: Seq<u8>, payload: Seq<u8>)
    requires
        payload.len() + PARITY_LEN <= u32::MAX,
        payload_fits(payload, pixels.len()),
    ensures
        frame_spec(payload).len() == 24 + payload.len(),
        decoded_stream(inject_spec(pixels, payload)).len() >= frame_spec(payload).len(),
        forall|j: int|
            0 <= j < frame_spec(payload).len() ==> #[trigger] decoded_stream(
                inject_spec(pixels, payload),
            )[j] == frame_spec(payload)[j],
{
    let frame = frame_spec(payload);
    let syms = bytes_to_symbols_spec(frame, 2);
    let new_pixels = inject_pixels(pixels, syms);
    let blue = blue_symbols(new_pixels);
    let data = decoded_stream(new_pixels);
    let fl = frame.len() as int;
    assert(valid_width(2));
    lemma_valid_width_bounds(2);
    lemma2_to64();
    lemma_checksum_round_trip(payload, PARITY_LEN as nat);
    assert(fl == 24 + payload.len());
    assert(syms.len() == frame.len() * 4);
    assert(syms.len() <= num_slots(pixels.len())) by {
        lemma_mul_is_commutative(4, fl);
    }
    lemma_bytes_to_symbols_bounded(frame, 2);
    lemma_injected_blue(pixels, syms);
    assert(data.len() >= fl) by {
        lemma_mul_is_commutative(4, fl);
        lemma_div_is_ordered(4 * fl, blue.len() as int, 4);
        lemma_div_multiples_vanish(fl, 4);
    }
    assert forall|j: int| 0 <= j < fl implies #[trigger] data[j] == frame[j] by {
        let group = blue.subrange(j * 4, j * 4 + 4);
        assert((j + 1) * 4 <= fl * 4) by {
            lemma_mul_inequality(j + 1, fl, 4);
        }
        assert forall|i: int| 0 <= i < 4 implies group[i] == byte_symbols(frame[j], 2)[i] by {
            lemma_fundamental_div_mod_converse(j * 4 + i, 4, j, i);
            lemma_mul_is_commutative(j, 4);
            lemma_mul_is_commutative(fl, 4);
        }
        assert(group =~= byte_symbols(frame[j], 2));
        lemma_digits_value(frame[j] as nat, 2, 4);
        assert(group_value(group, 2) == frame[j] as nat);
    }
}

/// Round trip: a payload whose frame fits the buffer is embedded whole
/// and recovered exactly, whatever the buffer held before. Injecting
/// into any pixels and then extracting yields the payload back.
pub proof fn lemma_round_trip(pixels: Seq<u8>, payload: Seq<u8>)
    requires
        payload.len() + PARITY_LEN <= u32::MAX,
        payload_fits(payload, pixels.len()),
    ensures
        extract_spec(inject_spec(pixels, payload)) == Ok::<Seq<u8>, CodecError>(payload),
{
    let frame = frame_spec(payload);
    let data = decoded_stream(inject_spec(pixels, payload));
    let fl = frame.len() as int;
    lemma_checksum_round_trip(payload, PARITY_LEN as nat);
    lemma_injected_prefix(pixels, payload);

    // The stream opens with the magic, so the scan finds position zero.
    assert(data.subrange(0, 4) =~= magic_seq());
    assert(find_magic_from(data, 0) == Option::Some(0nat));

    // The length field reads back the encoded payload's length.
    let el: nat = (payload.len() + PARITY_LEN) as nat;
    assert(data.subrange(4, 8) =~= be32_bytes(el));
    lemma_be32_round_trip(el);
    assert(be32(data.subrange(4, 8)) == el);

    // The sliced bytes are the encoded payload; stripping the checksum
    // suffix leaves the payload itself.
    assert(data.subrange(8, 8 + (el as int) - (PARITY_LEN as int)) =~= payload);
}

/// A slot's address has remainder 2 modulo 4 and names the slot back.
proof fn lemma_slot_address(t: nat)
    ensures
        (2 + 4 * t) % 4 == 2,
        (2 + 4 * t - 2) / 4 == t,
{
    lemma_mod_multiples_vanish(t as int, 2, 4);
    lemma_small_mod(2, 4);
    lemma_div_multiples_vanish(t as int, 4);
}

/// A buffer index with remainder 2 modulo 4 is the address of exactly
/// the slot `(i - 2) / 4`.
proof fn lemma_slot_form(i: int)
    requires
        i % 4 == 2,
    ensures
        i == 4 * ((i - 2) / 4) + 2,
{
    lemma_fundamental_div_mod(i, 4);
    lemma_div_multiples_vanish(i / 4, 4);
}

} // verus!
