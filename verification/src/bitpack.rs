//! Lossless two-way conversion between byte sequences and sequences of
//! fixed-width symbols: a symbol is the unit embeddable in one pixel
//! channel, occupying the low `width` bits of its byte.
//!
//! A byte always splits into `8 / width` symbols, most significant group
//! first; joining groups the symbols back, dropping a trailing partial
//! group (well-formed streams are whole-byte aligned, so a partial group
//! only arises from truncated input and loses at most one trailing byte).

use vstd::prelude::*;
use vstd::arithmetic::div_mod::{
    lemma_div_denominator, lemma_fundamental_div_mod, lemma_fundamental_div_mod_converse,
    lemma_mod_division_less_than_divisor, lemma_multiply_divide_lt, lemma_small_mod,
};
use vstd::arithmetic::mul::{
    lemma_mul_inequality, lemma_mul_is_commutative, lemma_mul_is_distributive_add,
    lemma_mul_is_distributive_sub, lemma_mul_is_distributive_sub_other_way,
};
use vstd::arithmetic::power2::{
    lemma2_to64, lemma_pow2_adds, lemma_pow2_pos, lemma_pow2_strictly_increases,
    lemma_pow2_unfold, pow2,
};

verus! {

/// A symbol width is usable when it divides a byte evenly: 1, 2, 4 or 8.
pub open spec fn valid_width(width: nat) -> bool {
    0 < width && 8nat % width == 0
}

/// How many symbols one byte splits into.
pub open spec fn syms_per_byte(width: nat) -> nat {
    8nat / width
}

/// Digit `i` of the `k`-digit base-`2^width` expansion of `b`, most
/// significant digit first.
pub open spec fn nth_digit(b: nat, width: nat, k: nat, i: int) -> u8 {
    ((b / pow2((width * (k - 1 - i)) as nat)) % pow2(width)) as u8
}

/// The `k` low-order base-`2^width` digits of `b`, most significant first.
pub open spec fn digits_of(b: nat, width: nat, k: nat) -> Seq<u8> {
    Seq::new(k, |i: int| nth_digit(b, width, k, i))
}

/// The symbols of one byte, most significant first.
pub open spec fn byte_symbols(b: u8, width: nat) -> Seq<u8> {
    digits_of(b as nat, width, syms_per_byte(width))
}

/// Splitting a byte sequence: each byte contributes its symbols in order.
pub open spec fn bytes_to_symbols_spec(bytes: Seq<u8>, width: nat) -> Seq<u8> {
    Seq::new(
        bytes.len() * syms_per_byte(width),
        |t: int|
            byte_symbols(bytes[t / (syms_per_byte(width) as int)], width)[t % (
            syms_per_byte(width) as int)],
    )
}

/// The value a symbol group reassembles to, most significant symbol first.
/// Bits of a symbol beyond `width` are ignored.
pub open spec fn group_value(syms: Seq<u8>, width: nat) -> nat
    decreases syms.len(),
{
    if syms.len() == 0 {
        0
    } else {
        group_value(syms.drop_last(), width) * pow2(width) + (syms.last() as nat) % pow2(width)
    }
}

/// Joining a symbol sequence: each whole group of `8 / width` symbols
/// becomes one byte; a trailing partial group is dropped.
pub open spec fn symbols_to_bytes_spec(syms: Seq<u8>, width: nat) -> Seq<u8> {
    Seq::new(
        syms.len() / syms_per_byte(width),
        |j: int|
            {
                let k = syms_per_byte(width) as int;
                group_value(syms.subrange(j * k, j * k + k), width) as u8
            },
    )
}

/// A valid width is at most 8, yields at least one symbol per byte, and
/// splits the 8 bits of a byte exactly.
pub proof fn lemma_valid_width_bounds(width: nat)
    requires
        valid_width(width),
    ensures
        width <= 8,
        syms_per_byte(width) >= 1,
        width * syms_per_byte(width) == 8,
        pow2(width) <= 0x100,
{
    if width > 8 {
        lemma_small_mod(8, width);
    }
    lemma_fundamental_div_mod(8, width as int);
    lemma_mul_is_commutative(width as int, syms_per_byte(width) as int);
    lemma2_to64();
    if width < 8 {
        lemma_pow2_strictly_increases(width, 8);
    }
}

/// Every digit lies below `2^width`.
pub proof fn lemma_digit_bound(b: nat, width: nat, k: nat, i: int)
    requires
        valid_width(width),
    ensures
        (nth_digit(b, width, k, i) as nat) == (b / pow2((width * (k - 1 - i)) as nat)) % pow2(
            width,
        ),
        (nth_digit(b, width, k, i) as nat) < pow2(width),
{
    lemma_valid_width_bounds(width);
    lemma_pow2_pos(width);
    lemma_mod_division_less_than_divisor(
        (b / pow2((width * (k - 1 - i)) as nat)) as int,
        pow2(width) as int,
    );
}

/// Reassembling the `k` digits of a value below `2^(width * k)` restores it.
pub proof fn lemma_digits_value(b: nat, width: nat, k: nat)
    requires
        valid_width(width),
        b < pow2((width * k) as nat),
    ensures
        group_value(digits_of(b, width, k), width) == b,
    decreases k,
{
    lemma_pow2_pos(width);
    lemma_valid_width_bounds(width);
    lemma2_to64();
    let ds = digits_of(b, width, k);
    if k == 0 {
        assert(width * 0 == 0);
        assert(ds =~= Seq::<u8>::empty());
    } else {
        let e: nat = (width * (k - 1)) as nat;
        assert(width * k == width + e) by {
            lemma_mul_is_distributive_sub(width as int, k as int, 1);
        }
        lemma_pow2_adds(width, e);
        lemma_pow2_pos(e);
        let q = b / pow2(width);
        assert(q < pow2(e)) by {
            lemma_multiply_divide_lt(b as int, pow2(width) as int, pow2(e) as int);
        }
        let prev = digits_of(q, width, (k - 1) as nat);
        assert forall|i: int| 0 <= i < k - 1 implies ds[i] == prev[i] by {
            let f: nat = (width * (k - 2 - i)) as nat;
            assert(width * ((k - 1) as nat - 1 - i) == f) by {
                lemma_mul_is_distributive_sub(width as int, k - 1, i + 1);
                lemma_mul_is_distributive_sub(width as int, k - 2, i);
            }
            assert(width * (k - 1 - i) == width + f) by {
                lemma_mul_is_distributive_sub(width as int, k - 1, i);
                lemma_mul_is_distributive_sub(width as int, k - 2, i);
                lemma_mul_is_distributive_add(width as int, 1, k - 2 - i);
            }
            lemma_pow2_adds(width, f);
            lemma_pow2_pos(f);
            assert(q / pow2(f) == b / pow2((width * (k - 1 - i)) as nat)) by {
                lemma_div_denominator(b as int, pow2(width) as int, pow2(f) as int);
            }
        }
        assert(ds.drop_last() =~= prev);
        lemma_digits_value(q, width, (k - 1) as nat);
        assert(ds.last() as nat == b % pow2(width)) by {
            assert(width * (k - 1 - (k - 1)) == 0) by {
                lemma_mul_is_distributive_sub(width as int, k - 1, k - 1);
            }
            assert(b / pow2(0) == b);
            lemma_mod_division_less_than_divisor(b as int, pow2(width) as int);
        }
        assert((ds.last() as nat) % pow2(width) == b % pow2(width)) by {
            lemma_mod_division_less_than_divisor(b as int, pow2(width) as int);
            lemma_small_mod(b % pow2(width), pow2(width));
        }
        assert(q * pow2(width) + b % pow2(width) == b) by {
            lemma_fundamental_div_mod(b as int, pow2(width) as int);
            lemma_mul_is_commutative(pow2(width) as int, q as int);
        }
    }
}

/// Every element of a symbol split is below `2^width`.
pub proof fn lemma_bytes_to_symbols_bounded(bytes: Seq<u8>, width: nat)
    requires
        valid_width(width),
    ensures
        forall|t: int|
            0 <= t < bytes_to_symbols_spec(bytes, width).len()
                ==> (#[trigger] bytes_to_symbols_spec(bytes, width)[t] as nat) < pow2(width),
{
    let k = syms_per_byte(width) as int;
    lemma_valid_width_bounds(width);
    assert forall|t: int| 0 <= t < bytes_to_symbols_spec(bytes, width).len() implies (
    #[trigger] bytes_to_symbols_spec(bytes, width)[t] as nat) < pow2(width) by {
        lemma_mod_division_less_than_divisor(t, k);
        let b = bytes[t / k];
        lemma_digit_bound(b as nat, width, k as nat, t % k);
    }
}

/// Idempotent symbol conversion: joining the split of any byte sequence
/// restores that sequence exactly, for every valid width.
pub proof fn lemma_symbols_round_trip(bytes: Seq<u8>, width: nat)
    requires
        valid_width(width),
    ensures
        symbols_to_bytes_spec(bytes_to_symbols_spec(bytes, width), width) == bytes,
{
    let kn = syms_per_byte(width);
    let k = kn as int;
    let syms = bytes_to_symbols_spec(bytes, width);
    let out = symbols_to_bytes_spec(syms, width);
    lemma_valid_width_bounds(width);
    lemma2_to64();
    assert(syms.len() == bytes.len() * kn);
    assert(out.len() == bytes.len()) by {
        lemma_mul_is_commutative(bytes.len() as int, k);
        vstd::arithmetic::div_mod::lemma_div_multiples_vanish(bytes.len() as int, k);
    }
    assert forall|j: int| 0 <= j < bytes.len() implies out[j] == bytes[j] by {
        let group = syms.subrange(j * k, j * k + k);
        assert(j * k + k <= bytes.len() * k) by {
            lemma_mul_inequality(j + 1, bytes.len() as int, k);
            lemma_mul_is_distributive_add(k, j, 1);
            lemma_mul_is_commutative(k, j + 1);
            lemma_mul_is_commutative(k, j);
            lemma_mul_is_commutative(k, bytes.len() as int);
        }
        assert(0 <= j * k) by {
            lemma_mul_inequality(0, j, k);
        }
        assert forall|i: int| 0 <= i < k implies group[i] == byte_symbols(bytes[j], width)[i] by {
            lemma_fundamental_div_mod_converse(j * k + i, k, j, i);
            lemma_mul_is_commutative(j, k);
        }
        assert(group =~= byte_symbols(bytes[j], width));
        assert(bytes[j] < pow2((width * kn) as nat)) by {
            lemma2_to64();
        }
        lemma_digits_value(bytes[j] as nat, width, kn);
    }
    assert(out =~= bytes);
}

/// 2 to the power `e`, for exponents up to a full byte.
pub(crate) fn pow2_u16(e: u8) -> (r: u16)
    requires
        e <= 8,
    ensures
        r == pow2(e as nat),
{
    let mut r: u16 = 1;
    let mut i: u8 = 0;
    proof {
        lemma2_to64();
    }
    while i < e
        invariant
            i <= e,
            e <= 8,
            r == pow2(i as nat),
        decreases e - i,
    {
        proof {
            lemma_pow2_unfold((i + 1) as nat);
            if (i as nat) < 8 {
                lemma_pow2_strictly_increases(i as nat, 8);
            }
            lemma2_to64();
        }
        r = 2 * r;
        i = i + 1;
    }
    r
}

/// Split bytes into symbols of the given width, most significant first.
/// Deterministic and total: every byte yields exactly `8 / width` symbols.
pub fn bytes_to_symbols(bytes: &[u8], width: u8) -> (syms: Vec<u8>)
    requires
        valid_width(width as nat),
    ensures
        syms@ == bytes_to_symbols_spec(bytes@, width as nat),
{
    proof {
        lemma_valid_width_bounds(width as nat);
    }
    let k: u8 = 8 / width;
    let m: u16 = pow2_u16(width);
    let spec_out = Ghost(bytes_to_symbols_spec(bytes@, width as nat));
    let mut syms: Vec<u8> = Vec::new();
    let mut n: usize = 0;
    while n < bytes.len()
        invariant
            n <= bytes@.len(),
            valid_width(width as nat),
            k as nat == syms_per_byte(width as nat),
            m == pow2(width as nat),
            spec_out@ == bytes_to_symbols_spec(bytes@, width as nat),
            syms@.len() == n * (k as nat),
            forall|t: int| 0 <= t < syms@.len() ==> syms@[t] == spec_out@[t],
        decreases bytes@.len() - n,
    {
        let b = bytes[n];
        let mut j: u8 = 0;
        proof {
            lemma_valid_width_bounds(width as nat);
            lemma_mul_is_distributive_add((k as nat) as int, n as int, 1);
            lemma_mul_is_commutative((k as nat) as int, n as int);
            lemma_mul_is_commutative((k as nat) as int, n as int + 1);
            lemma_mul_inequality(n as int + 1, bytes@.len() as int, k as int);
        }
        while j < k
            invariant
                j <= k,
                n < bytes@.len(),
                valid_width(width as nat),
                k as nat == syms_per_byte(width as nat),
                m == pow2(width as nat),
                b == bytes@[n as int],
                spec_out@ == bytes_to_symbols_spec(bytes@, width as nat),
                syms@.len() == n * (k as nat) + j as nat,
                (n + 1) * (k as nat) <= bytes@.len() * (k as nat),
                forall|t: int| 0 <= t < syms@.len() ==> syms@[t] == spec_out@[t],
            decreases k - j,
        {
            proof {
                lemma_valid_width_bounds(width as nat);
                lemma_mul_inequality(k as int - 1 - j as int, k as int - 1, width as int);
                lemma_mul_is_commutative(width as int, k as int - 1 - j as int);
                lemma_mul_is_commutative(width as int, k as int - 1);
                lemma_mul_is_distributive_sub(width as int, k as int, 1);
            }
            let e: u8 = width * (k - 1 - j);
            let p: u16 = pow2_u16(e);
            proof {
                lemma_pow2_pos(e as nat);
                lemma_pow2_pos(width as nat);
            }
            let sym16: u16 = ((b as u16) / p) % m;
            proof {
                let t = n * (k as nat) + j as nat;
                lemma_fundamental_div_mod_converse(t as int, k as int, n as int, j as int);
                lemma_mul_is_commutative(n as int, k as int);
                assert(t < spec_out@.len()) by {
                    lemma_mul_is_distributive_add((k as nat) as int, n as int, 1);
                    lemma_mul_is_commutative((k as nat) as int, n as int);
                    lemma_mul_is_commutative((k as nat) as int, n as int + 1);
                    lemma_mul_is_commutative(bytes@.len() as int, k as int);
                }
                lemma_digit_bound(b as nat, width as nat, k as nat, j as int);
                assert(spec_out@[t as int] == sym16 as u8);
            }
            syms.push(sym16 as u8);
            j = j + 1;
        }
        n = n + 1;
        proof {
            lemma_mul_is_distributive_add((k as nat) as int, n as int - 1, 1);
            lemma_mul_is_commutative((k as nat) as int, n as int - 1);
            lemma_mul_is_commutative((k as nat) as int, n as int);
        }
    }
    proof {
        assert(syms@ =~= bytes_to_symbols_spec(bytes@, width as nat));
    }
    syms
}

/// Join symbols of the given width back into bytes, most significant
/// symbol of each group first; a trailing partial group is dropped, and
/// bits of a symbol beyond `width` are ignored.
pub fn symbols_to_bytes(syms: &[u8], width: u8) -> (bytes: Vec<u8>)
    requires
        valid_width(width as nat),
    ensures
        bytes@ == symbols_to_bytes_spec(syms@, width as nat),
{
    proof {
        lemma_valid_width_bounds(width as nat);
    }
    let k: usize = (8 / width) as usize;
    let m: u16 = pow2_u16(width);
    let groups: usize = syms.len() / k;
    let mut bytes: Vec<u8> = Vec::new();
    let mut g: usize = 0;
    proof {
        lemma_fundamental_div_mod(syms@.len() as int, k as int);
        lemma_mod_division_less_than_divisor(syms@.len() as int, k as int);
        lemma_mul_is_commutative(k as int, (syms@.len() / (k as nat)) as int);
        lemma2_to64();
    }
    while g < groups
        invariant
            g <= groups,
            syms@.len() <= usize::MAX,
            valid_width(width as nat),
            k as nat == syms_per_byte(width as nat),
            (width as nat) * (k as nat) == 8,
            m == pow2(width as nat),
            groups as nat == syms@.len() / (k as nat),
            (groups as nat) * (k as nat) <= syms@.len(),
            bytes@.len() == g,
            forall|j: int|
                0 <= j < g ==> bytes@[j] == symbols_to_bytes_spec(syms@, width as nat)[j],
        decreases groups - g,
    {
        proof {
            lemma_mul_inequality(g as int + 1, groups as int, k as int);
            lemma_mul_is_distributive_add(k as int, g as int, 1);
            lemma_mul_is_commutative(k as int, g as int);
            lemma_mul_is_commutative(k as int, g as int + 1);
            lemma_mul_is_commutative(groups as int, k as int);
        }
        let group = Ghost(syms@.subrange((g * k) as int, (g * k + k) as int));
        let mut acc: u16 = 0;
        let mut j: usize = 0;
        proof {
            assert(group@.take(0) =~= Seq::<u8>::empty());
            assert((width as nat) * 0 == 0);
            lemma2_to64();
        }
        while j < k
            invariant
                j <= k,
                syms@.len() <= usize::MAX,
                g * (k as nat) + (k as nat) <= syms@.len(),
                valid_width(width as nat),
                k as nat == syms_per_byte(width as nat),
                (width as nat) * (k as nat) == 8,
                m == pow2(width as nat),
                group@ == syms@.subrange((g * (k as nat)) as int, (g * (k as nat) + k) as int),
                acc == group_value(group@.take(j as int), width as nat),
                (acc as nat) < pow2(((width as nat) * (j as nat)) as nat),
            decreases k - j,
        {
            proof {
                assert(g * (k as nat) + (j as nat) < syms@.len());
            }
            let s = syms[g * k + j];
            proof {
                lemma_pow2_pos(width as nat);
                lemma_mod_division_less_than_divisor(s as int, m as int);
                let wj: nat = ((width as nat) * (j as nat)) as nat;
                let wj1: nat = ((width as nat) * (j as nat + 1)) as nat;
                assert(wj1 == wj + width as nat) by {
                    lemma_mul_is_distributive_add(width as int, j as int, 1);
                }
                lemma_pow2_adds(wj, width as nat);
                assert((acc as nat) * (m as nat) <= (pow2(wj) - 1) * (m as nat)) by {
                    lemma_mul_inequality(acc as int, pow2(wj) as int - 1, m as int);
                }
                assert((pow2(wj) - 1) * (m as nat) == pow2(wj1) - m) by {
                    lemma_mul_is_distributive_sub_other_way(m as int, pow2(wj) as int, 1);
                }
                assert(wj1 <= 8) by {
                    lemma_mul_inequality(j as int + 1, k as int, width as int);
                    lemma_mul_is_commutative(width as int, j as int + 1);
                    lemma_mul_is_commutative(width as int, k as int);
                }
                if wj1 < 8 {
                    lemma_pow2_strictly_increases(wj1, 8);
                }
                lemma2_to64();
            }
            acc = acc * m + (s as u16) % m;
            proof {
                let t = group@.take(j as int + 1);
                assert(t.drop_last() =~= group@.take(j as int));
                assert(t.last() == syms@[(g * (k as nat) + j as nat) as int]);
            }
            j = j + 1;
        }
        proof {
            assert(group@.take(k as int) =~= group@);
            assert((acc as nat) < 0x100) by {
                lemma2_to64();
            }
            assert(symbols_to_bytes_spec(syms@, width as nat)[g as int] == acc as u8);
        }
        bytes.push(acc as u8);
        g = g + 1;
    }
    proof {
        assert(bytes@ =~= symbols_to_bytes_spec(syms@, width as nat));
    }
    bytes
}

} // verus!
