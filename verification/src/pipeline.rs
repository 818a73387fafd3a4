//! The indexed PNG encoder: bit packing, chunk framing and the assembly of
//! a palette image with its preserved metadata.

use vstd::arithmetic::div_mod::*;
use vstd::arithmetic::mul::*;
use vstd::arithmetic::power2::*;
use vstd::bits::*;
use vstd::prelude::*;

use crate::error::AppError;
use crate::text::{decimal, owned, push_decimal, push_str};

verus! {

/// Bits per sample of a PNG image.
#[derive(Debug, Clone, Copy, PartialEq, Eq, Structural)]
pub enum BitDepth {
    One,
    Two,
    Four,
    Eight,
    Sixteen,
}

/// The number of bits a depth stands for.
pub open spec fn spec_bits(d: BitDepth) -> nat {
    match d {
        BitDepth::One => 1,
        BitDepth::Two => 2,
        BitDepth::Four => 4,
        BitDepth::Eight => 8,
        BitDepth::Sixteen => 16,
    }
}

/// The number of bits a depth stands for (its value in the IHDR chunk).
pub fn bit_count(d: BitDepth) -> (r: u8)
    ensures
        r == spec_bits(d),
{
    match d {
        BitDepth::One => 1,
        BitDepth::Two => 2,
        BitDepth::Four => 4,
        BitDepth::Eight => 8,
        BitDepth::Sixteen => 16,
    }
}

/// The smallest indexed depth whose indices reach every entry of a palette
/// of `len` colors (at most 256).
pub open spec fn spec_indexed_bit_depth(len: nat) -> BitDepth {
    if len <= 2 {
        BitDepth::One
    } else if len <= 4 {
        BitDepth::Two
    } else if len <= 16 {
        BitDepth::Four
    } else {
        BitDepth::Eight
    }
}

/// The bit depth for a palette of `palette_len` colors.
pub fn indexed_bit_depth(palette_len: usize) -> (d: BitDepth)
    ensures
        d == spec_indexed_bit_depth(palette_len as nat),
{
    if palette_len <= 2 {
        BitDepth::One
    } else if palette_len <= 4 {
        BitDepth::Two
    } else if palette_len <= 16 {
        BitDepth::Four
    } else {
        BitDepth::Eight
    }
}

/// Law: the chosen depth reaches every palette entry and is the smallest
/// indexed depth (1, 2, 4 or 8 bits) that does: a palette of `n` colors,
/// 1 to 256, needs indices up to `n - 1`, which `bits` bits hold exactly
/// when `n <= 2^bits`.
pub proof fn lemma_indexed_depth_reaches_palette(n: nat, other: BitDepth)
    requires
        1 <= n <= 256,
        other != BitDepth::Sixteen,
    ensures
        n <= pow2(spec_bits(spec_indexed_bit_depth(n))),
        spec_indexed_bit_depth(n) != BitDepth::Sixteen,
        n <= pow2(spec_bits(other)) ==> spec_bits(spec_indexed_bit_depth(n)) <= spec_bits(other),
{
    lemma2_to64();
}

/// Bytes per row of `width` samples of `bits` bits, rounded up.
pub open spec fn spec_row_bytes(width: nat, bits: nat) -> nat {
    (width * bits + 7) / 8
}

/// The bytes in one row of `width` samples at `bit_depth`.
pub fn row_byte_count(width: u32, bit_depth: BitDepth) -> (r: usize)
    requires
        width * spec_bits(bit_depth) + 7 <= usize::MAX,
    ensures
        r == spec_row_bytes(width as nat, spec_bits(bit_depth)),
{
    let bits_per_pixel: usize = match bit_depth {
        BitDepth::One => 1,
        BitDepth::Two => 2,
        BitDepth::Four => 4,
        BitDepth::Eight => 8,
        BitDepth::Sixteen => 16,
    };
    (width as usize * bits_per_pixel + 7) / 8
}

// ---------------------------------------------------------------- bit packing

/// Indices per byte at `bits` bits each.
pub open spec fn per_byte(bits: nat) -> nat {
    8nat / bits
}

/// Bytes per packed row of `width` indices at `bits` bits each.
pub open spec fn packed_row_len(width: nat, bits: nat) -> nat {
    ((width + per_byte(bits) - 1) as nat) / per_byte(bits)
}

/// The contribution of the `t`-th index of byte `k` of the row starting at
/// `base`: the index shifted so that earlier indices take the higher bits.
pub open spec fn pack_term(ix: Seq<u8>, base: int, width: int, k: int, bits: nat, t: int) -> nat {
    let c = k * per_byte(bits) + t;
    if c < width {
        (ix[base + c] as nat) * pow2((8 - bits * (t + 1)) as nat)
    } else {
        0
    }
}

/// The sum of the first `t` contributions to byte `k` of the row.
pub open spec fn pack_sum(ix: Seq<u8>, base: int, width: int, k: int, bits: nat, t: nat) -> nat
    decreases t,
{
    if t == 0 {
        0
    } else {
        pack_sum(ix, base, width, k, bits, (t - 1) as nat) + pack_term(ix, base, width, k, bits, t - 1)
    }
}

/// `height` rows of `width` indices, each row packed most significant bits
/// first at `bits` bits per index and padded with zero bits to a whole byte.
pub open spec fn packed_rows(ix: Seq<u8>, width: nat, height: nat, bits: nat) -> Seq<u8> {
    let rb = packed_row_len(width, bits);
    Seq::new(
        height * rb,
        |p: int| pack_sum(ix, (p / (rb as int)) * width, width as int, p % (rb as int), bits, per_byte(bits)) as u8,
    )
}

/// The largest index a depth of `bits` bits can hold.
pub open spec fn spec_max_index(bits: nat) -> nat {
    (pow2(bits) - 1) as nat
}

pub open spec fn index_count_mismatch_msg(expected: nat, actual: nat) -> Seq<char> {
    "indexed data length mismatch: expected="@ + decimal(expected) + ", actual="@ + decimal(actual)
}

pub open spec fn sixteen_bit_msg() -> Seq<char> {
    "indexed PNG does not support 16-bit palette indices"@
}

pub open spec fn index_range_msg(bits: nat, idx: nat) -> Seq<char> {
    "palette index out of range for "@ + decimal(bits) + "-bit mode: "@ + decimal(idx)
}

/// The pixel count that `pack_indices_by_bit_depth` expects, saturated at `usize::MAX`.
pub open spec fn expected_pixels(width: u32, height: u32) -> nat {
    if width * height > usize::MAX {
        usize::MAX as nat
    } else {
        (width * height) as nat
    }
}

proof fn lemma_or_add(a: u8, i: u8, s: u8, b: u8)
    by (bit_vector)
    requires
        1 <= b <= 8,
        s + b <= 8,
        (a >> (s + b)) << (s + b) == a,
        i >> b == 0,
    ensures
        a | (i << s) == a + (i << s),
        ((a | (i << s)) >> s) << s == (a | (i << s)),
{
}

proof fn lemma_small_index(i: u8, b: u8)
    by (bit_vector)
    requires
        1 <= b <= 4,
        i <= ((1u16 << b) - 1) as u8,
    ensures
        i >> b == 0,
{
}

proof fn lemma_shifted(i: u8, s: u8, b: u8)
    requires
        1 <= b <= 4,
        s + b <= 8,
        i >> b == 0,
    ensures
        (i << s) as nat == (i as nat) * pow2(s as nat),
{
    lemma_u8_shr_is_div(i, b);
    lemma_pow2_pos(b as nat);
    lemma_pow2_adds(b as nat, s as nat);
    lemma_pow2_pos(s as nat);
    if s + b < 8 {
        lemma_pow2_strictly_increases((s + b) as nat, 8);
    }
    lemma2_to64();
    assert((i as nat) < pow2(b as nat)) by {
        lemma_fundamental_div_mod(i as int, pow2(b as nat) as int);
    }
    lemma_mul_strict_inequality(i as int, pow2(b as nat) as int, pow2(s as nat) as int);
    lemma_mul_is_commutative(pow2(s as nat) as int, pow2(b as nat) as int);
    lemma_u8_shl_is_mul(i, s);
}

proof fn lemma_pack_tail(ix: Seq<u8>, base: int, width: int, k: int, bits: nat, t: nat)
    requires
        bits >= 1,
        t <= per_byte(bits),
        k * per_byte(bits) + t >= width,
    ensures
        pack_sum(ix, base, width, k, bits, t) == pack_sum(ix, base, width, k, bits, per_byte(bits)),
    decreases per_byte(bits) - t,
{
    if t < per_byte(bits) {
        lemma_pack_tail(ix, base, width, k, bits, t + 1);
    }
}

proof fn lemma_row_len(w: int, ppb: int, k: int, t: int)
    requires
        ppb >= 1,
        0 <= t < ppb,
        0 <= k,
        w == k * ppb + t,
    ensures
        (w + ppb - 1) / ppb == if t > 0 { k + 1 } else { k },
{
    if t > 0 {
        assert((k + 1) * ppb == k * ppb + ppb) by (nonlinear_arith);
        lemma_fundamental_div_mod_converse(w + ppb - 1, ppb, k + 1, t - 1);
    } else {
        lemma_fundamental_div_mod_converse(w + ppb - 1, ppb, k, ppb - 1);
    }
}

/// Every index is at most `max`.
pub open spec fn all_at_most(ix: Seq<u8>, max: nat) -> bool {
    forall|q: int| 0 <= q < ix.len() ==> #[trigger] ix[q] <= max
}

/// Index `p` is the first one above `max`.
pub open spec fn first_above(ix: Seq<u8>, max: nat, p: int) -> bool {
    &&& 0 <= p < ix.len()
    &&& ix[p] > max
    &&& forall|q: int| 0 <= q < p ==> #[trigger] ix[q] <= max
}

proof fn lemma_max_index(bits: u8)
    requires
        bits == 1 || bits == 2 || bits == 4,
    ensures
        (1u16 << bits) >= 2,
        ((1u16 << bits) - 1) as u8 == spec_max_index(bits as nat),
        1 <= bits <= 4,
{
    lemma2_to64();
    assert(1u16 << 1u8 == 2) by (bit_vector);
    assert(1u16 << 2u8 == 4) by (bit_vector);
    assert(1u16 << 4u8 == 16) by (bit_vector);
}

proof fn lemma_packed_eight(ix: Seq<u8>, width: nat, height: nat)
    requires
        ix.len() == width * height,
    ensures
        packed_rows(ix, width, height, 8) == ix,
{
    lemma2_to64();
    assert(per_byte(8) == 1);
    assert(packed_row_len(width, 8) == width) by {
        lemma_fundamental_div_mod_converse(width as int, 1, width as int, 0);
    }
    if width > 0 {
        assert forall|p: int| 0 <= p < ix.len() implies #[trigger] packed_rows(ix, width, height, 8)[p]
            == ix[p] by {
            let wi = width as int;
            lemma_fundamental_div_mod(p, wi);
            lemma_mod_bound(p, wi);
            lemma_mul_is_commutative(wi, p / wi);
            assert(0 <= p / (width as int) < height as int) by (nonlinear_arith)
                requires
                    0 <= p < ix.len(),
                    ix.len() == width * height,
                    width > 0,
                    p == width * (p / (width as int)) + p % (width as int),
                    0 <= p % (width as int) < width,
            ;
            assert(p < height * width) by (nonlinear_arith)
                requires
                    0 <= p < ix.len(),
                    ix.len() == width * height,
            ;
            let base = (p / wi) * wi;
            let k = p % wi;
            assert(pack_sum(ix, base, wi, k, 8, 0) == 0);
            assert(k * 1 + 0 < wi);
            assert(pack_term(ix, base, wi, k, 8, 0) == (ix[base + k] as nat) * pow2(0));
            assert(pack_sum(ix, base, wi, k, 8, 1) == ix[p] as nat);
        }
    } else {
        assert(height * 0 == 0) by (nonlinear_arith);
    }
    assert(height * width == width * height) by (nonlinear_arith);
    assert(packed_rows(ix, width, height, 8) =~= ix);
}

// ---------------------------------------------------------------- unpacking

/// The index that a decoder reads back at (`row`, `col`) from rows packed at
/// `bits` bits per index: the `col % per_byte`-th field, from the high bits
/// down, of byte `col / per_byte` of the row.
pub open spec fn unpacked(packed: Seq<u8>, width: nat, bits: nat, row: int, col: int) -> int {
    let ppb = per_byte(bits) as int;
    let rb = packed_row_len(width, bits) as int;
    (packed[row * rb + col / ppb] as int / pow2((8 - bits * (col % ppb + 1)) as nat) as int) % pow2(
        bits,
    ) as int
}

proof fn lemma_depth_facts(bits: nat)
    requires
        bits == 1 || bits == 2 || bits == 4 || bits == 8,
    ensures
        bits * per_byte(bits) == 8,
        per_byte(bits) >= 1,
        pow2(bits) >= 2,
        pow2(0) == 1,
        pow2(8) == 256,
{
    lemma2_to64();
    if bits == 1 {
        assert(per_byte(1) == 8);
    } else if bits == 2 {
        assert(per_byte(2) == 4);
    } else if bits == 4 {
        assert(per_byte(4) == 2);
    } else {
        assert(per_byte(8) == 1);
    }
}

proof fn lemma_pack_tail_bound(ix: Seq<u8>, base: int, width: int, k: int, bits: nat, m: nat, n: nat)
    requires
        bits == 1 || bits == 2 || bits == 4 || bits == 8,
        m <= n <= per_byte(bits),
        forall|t: int| 0 <= t < per_byte(bits) && k * per_byte(bits) + t < width ==> (#[trigger] ix[base + k
            * per_byte(bits) + t] as int) < pow2(bits) as int,
    ensures
        pack_sum(ix, base, width, k, bits, n) - pack_sum(ix, base, width, k, bits, m) + pow2(
            (8 - bits * n) as nat,
        ) <= pow2((8 - bits * m) as nat),
        pack_sum(ix, base, width, k, bits, m) <= pack_sum(ix, base, width, k, bits, n),
    decreases n - m,
{
    let ppb = per_byte(bits);
    lemma_depth_facts(bits);
    if n == m {
    } else {
        lemma_pack_tail_bound(ix, base, width, k, bits, m, (n - 1) as nat);
        let s = (8 - bits * n) as nat;
        assert(8 - bits * (n - 1) == s + bits) by (nonlinear_arith)
            requires
                s == 8 - bits * n,
                bits * n <= 8,
        ;
        assert(bits * n <= 8) by (nonlinear_arith)
            requires
                n <= ppb,
                bits * ppb == 8,
        ;
        lemma_pow2_adds(s, bits);
        lemma_pow2_pos(s);
        let e: int = if k * ppb + (n - 1) < width { ix[base + k * per_byte(bits) + (n - 1)] as int } else { 0 };
        if k * ppb + (n - 1) < width {
            assert((ix[base + k * per_byte(bits) + (n - 1)] as int) < pow2(bits) as int);
        }
        assert(e < pow2(bits) as int);
        assert(pack_term(ix, base, width, k, bits, n - 1) == e * pow2(s)) by {
            assert((8 - bits * ((n - 1) + 1)) as nat == s);
        }
        assert(e * pow2(s) + pow2(s) <= pow2(bits) * pow2(s)) by (nonlinear_arith)
            requires
                e + 1 <= pow2(bits),
                pow2(s) > 0,
        ;
        assert(pow2(s) * pow2(bits) == pow2(bits) * pow2(s)) by (nonlinear_arith);
        assert((8 - bits * (n - 1)) as nat == s + bits);
        assert(0 <= e * pow2(s)) by (nonlinear_arith)
            requires
                0 <= e,
                pow2(s) > 0,
        ;
        assert(pack_sum(ix, base, width, k, bits, n) == pack_sum(ix, base, width, k, bits, (n - 1) as nat)
            + pack_term(ix, base, width, k, bits, n - 1));
    }
}

proof fn lemma_pack_multiple(ix: Seq<u8>, base: int, width: int, k: int, bits: nat, n: nat)
    requires
        bits == 1 || bits == 2 || bits == 4 || bits == 8,
        n <= per_byte(bits),
    ensures
        (pack_sum(ix, base, width, k, bits, n) as int) % (pow2((8 - bits * n) as nat) as int) == 0,
    decreases n,
{
    let ppb = per_byte(bits);
    lemma_depth_facts(bits);
    assert(bits * n <= 8) by (nonlinear_arith)
        requires
            n <= ppb,
            bits * ppb == 8,
    ;
    let s = (8 - bits * n) as nat;
    lemma_pow2_pos(s);
    if n == 0 {
        assert(pack_sum(ix, base, width, k, bits, 0) == 0);
        lemma_mod_self_0(pow2(8) as int);
        lemma_small_mod(0, pow2(8));
    } else {
        lemma_pack_multiple(ix, base, width, k, bits, (n - 1) as nat);
        assert(8 - bits * (n - 1) == s + bits) by (nonlinear_arith)
            requires
                s == 8 - bits * n,
                bits * n <= 8,
        ;
        lemma_pow2_adds(bits, s);
        let prev = pack_sum(ix, base, width, k, bits, (n - 1) as nat) as int;
        let big = pow2(bits + s) as int;
        lemma_pow2_pos(bits + s);
        lemma_fundamental_div_mod(prev, big);
        let c = prev / big;
        let e: int = if k * ppb + (n - 1) < width { ix[base + k * per_byte(bits) + (n - 1)] as int } else { 0 };
        assert(pack_term(ix, base, width, k, bits, n - 1) == e * pow2(s)) by {
            assert((8 - bits * ((n - 1) + 1)) as nat == s);
        }
        assert(pack_sum(ix, base, width, k, bits, n) == (c * pow2(bits) + e) * pow2(s)) by (nonlinear_arith)
            requires
                pack_sum(ix, base, width, k, bits, n) == prev + e * pow2(s),
                prev == big * c,
                big == pow2(bits) * pow2(s),
        ;
        lemma_mod_multiples_basic(c * pow2(bits) + e, pow2(s) as int);
    }
}

proof fn lemma_pack_field(ix: Seq<u8>, base: int, width: int, k: int, bits: nat, t0: nat)
    requires
        bits == 1 || bits == 2 || bits == 4 || bits == 8,
        t0 < per_byte(bits),
        k * per_byte(bits) + t0 < width,
        forall|t: int| 0 <= t < per_byte(bits) && k * per_byte(bits) + t < width ==> (#[trigger] ix[base + k
            * per_byte(bits) + t] as int) < pow2(bits) as int,
    ensures
        pack_sum(ix, base, width, k, bits, per_byte(bits)) < 256,
        (pack_sum(ix, base, width, k, bits, per_byte(bits)) as int / pow2((8 - bits * (t0 + 1)) as nat) as int)
            % pow2(bits) as int == ix[base + k * per_byte(bits) + t0] as int,
{
    let ppb = per_byte(bits);
    lemma_depth_facts(bits);
    lemma_pack_tail_bound(ix, base, width, k, bits, 0, ppb);
    assert((8 - bits * ppb) as nat == 0);
    assert((8 - bits * 0) as nat == 8);
    assert(bits * (t0 + 1) <= 8) by (nonlinear_arith)
        requires
            t0 + 1 <= ppb,
            bits * ppb == 8,
    ;
    let s = (8 - bits * (t0 + 1)) as nat;
    lemma_pow2_pos(s);
    lemma_pow2_pos(bits);
    lemma_pack_tail_bound(ix, base, width, k, bits, t0 + 1, ppb);
    lemma_pack_multiple(ix, base, width, k, bits, t0);
    assert((8 - bits * t0) as nat == bits + s) by (nonlinear_arith)
        requires
            s == 8 - bits * (t0 + 1),
            bits * (t0 + 1) <= 8,
    ;
    lemma_pow2_adds(bits, s);
    let head = pack_sum(ix, base, width, k, bits, t0) as int;
    let big = pow2(bits + s) as int;
    lemma_pow2_pos(bits + s);
    lemma_fundamental_div_mod(head, big);
    let c = head / big;
    let e = ix[base + k * per_byte(bits) + t0] as int;
    assert(e < pow2(bits) as int);
    assert(pack_term(ix, base, width, k, bits, t0 as int) == e * pow2(s));
    let total = pack_sum(ix, base, width, k, bits, ppb) as int;
    let rest = total - pack_sum(ix, base, width, k, bits, t0 + 1) as int;
    assert(0 <= rest < pow2(s)) by {
        assert(pow2(0) == 1);
    }
    assert(total == (c * pow2(bits) + e) * pow2(s) + rest) by (nonlinear_arith)
        requires
            total == rest + head + e * pow2(s),
            head == big * c,
            big == pow2(bits) * pow2(s),
    ;
    lemma_fundamental_div_mod_converse(total, pow2(s) as int, c * pow2(bits) + e, rest);
    assert(0 <= e < pow2(bits));
    lemma_fundamental_div_mod_converse(c * pow2(bits) + e, pow2(bits) as int, c, e);
}

/// Law: packing loses nothing. Every index that fits the bit depth is read
/// back from the packed rows at its row and column.
pub proof fn lemma_unpack_packed(ix: Seq<u8>, width: nat, height: nat, bits: nat, row: int, col: int)
    requires
        bits == 1 || bits == 2 || bits == 4 || bits == 8,
        ix.len() == width * height,
        all_at_most(ix, spec_max_index(bits)),
        0 <= row < height,
        0 <= col < width,
    ensures
        unpacked(packed_rows(ix, width, height, bits), width, bits, row, col) == ix[row * width + col] as int,
{
    let ppb = per_byte(bits) as int;
    let rb = packed_row_len(width, bits) as int;
    lemma_depth_facts(bits);
    lemma_fundamental_div_mod(col, ppb);
    let k = col / ppb;
    let t0 = col % ppb;
    lemma_mul_is_commutative(ppb, col / ppb);
    assert(k * ppb + t0 == col);
    assert(k < rb) by {
        lemma_fundamental_div_mod(width + ppb - 1, ppb);
        assert((k + 1) * ppb <= width + ppb - 1) by (nonlinear_arith)
            requires
                k * ppb + t0 == col,
                col < width,
                t0 >= 0,
        ;
        lemma_div_is_ordered((k + 1) * ppb, width + ppb - 1, ppb);
        lemma_div_multiples_vanish(k + 1, ppb);
    }
    let base = row * width;
    assert(base + width <= ix.len()) by (nonlinear_arith)
        requires
            base == row * width,
            row + 1 <= height,
            ix.len() == width * height,
            0 <= row,
    ;
    assert forall|t: int| 0 <= t < ppb && k * ppb + t < width implies (#[trigger] ix[base + k * ppb + t]
        as int) < pow2(bits) as int by {
        assert(0 <= k * ppb) by (nonlinear_arith)
            requires
                k >= 0,
                ppb >= 1,
        ;
        assert(ix[base + k * ppb + t] <= spec_max_index(bits));
        lemma_pow2_pos(bits);
    }
    lemma_pack_field(ix, base, width as int, k, bits, t0 as nat);
    let p = row * rb + k;
    assert(0 <= p < height * rb) by (nonlinear_arith)
        requires
            p == row * rb + k,
            0 <= row < height,
            0 <= k < rb,
    ;
    lemma_fundamental_div_mod_converse(p, rb, row, k);
    let packed = packed_rows(ix, width, height, bits);
    assert(packed[p] == pack_sum(ix, base, width as int, k, bits, per_byte(bits)) as u8);
}

/// Packs one palette index per pixel into rows of `bit_depth` bits per index.
pub fn pack_indices_by_bit_depth(indices: &Vec<u8>, width: u32, height: u32, bit_depth: BitDepth) -> (r:
    Result<Vec<u8>, AppError>)
    requires
        indices@.len() < usize::MAX,
    ensures
        indices@.len() != expected_pixels(width, height) ==> (r matches Err(AppError::Encode(m))
            && m@ == index_count_mismatch_msg(expected_pixels(width, height), indices@.len())),
        indices@.len() == expected_pixels(width, height) && bit_depth == BitDepth::Sixteen ==> (r matches Err(
            AppError::Encode(m),
        ) && m@ == sixteen_bit_msg()),
        indices@.len() == expected_pixels(width, height) && bit_depth != BitDepth::Sixteen
            && all_at_most(indices@, spec_max_index(spec_bits(bit_depth))) ==> (r matches Ok(v) && v@
            == packed_rows(indices@, width as nat, height as nat, spec_bits(bit_depth))),
        indices@.len() == expected_pixels(width, height) && bit_depth != BitDepth::Sixteen
            && !all_at_most(indices@, spec_max_index(spec_bits(bit_depth))) ==> (r matches Err(
            AppError::Encode(m),
        ) && exists|p: int|
            first_above(indices@, spec_max_index(spec_bits(bit_depth)), p) && m@ == index_range_msg(
                spec_bits(bit_depth),
                #[trigger] indices@[p] as nat,
            )),
{
    let pixel_count: usize = match (width as usize).checked_mul(height as usize) {
        Some(n) => n,
        None => usize::MAX,
    };
    if indices.len() != pixel_count {
        let mut m = owned("indexed data length mismatch: expected=");
        push_decimal(&mut m, pixel_count as u64);
        push_str(&mut m, ", actual=");
        push_decimal(&mut m, indices.len() as u64);
        return Err(AppError::Encode(m));
    }
    let bits: u8 = match bit_depth {
        BitDepth::One => 1,
        BitDepth::Two => 2,
        BitDepth::Four => 4,
        BitDepth::Eight => 8,
        BitDepth::Sixteen => {
            return Err(AppError::Encode(owned("indexed PNG does not support 16-bit palette indices")));
        },
    };
    let ghost ix = indices@;
    let ghost w = width as int;
    let ghost h = height as int;
    proof {
        assert(ix.len() == w * h);
    }
    if bits == 8 {
        proof {
            lemma_packed_eight(ix, width as nat, height as nat);
            lemma2_to64();
        }
        return Ok(indices.clone());
    }
    let ghost nb = bits as nat;
    let ghost ppb = per_byte(nb) as int;
    let ghost rb = packed_row_len(width as nat, nb) as int;
    proof {
        lemma_max_index(bits);
        lemma2_to64();
        if bits == 1 {
            lemma_fundamental_div_mod_converse(8, 1, 8, 0);
        } else if bits == 2 {
            lemma_fundamental_div_mod_converse(8, 2, 4, 0);
        } else {
            lemma_fundamental_div_mod_converse(8, 4, 2, 0);
        }
        assert(ppb * nb == 8);
    }
    let width_usize = width as usize;
    let max_index: u8 = ((1u16 << bits) - 1) as u8;
    let mut out: Vec<u8> = Vec::new();
    let mut row: usize = 0;
    proof {
        assert(packed_rows(ix, width as nat, 0, nb).len() == 0);
        assert(out@ =~= packed_rows(ix, width as nat, 0, nb));
    }
    while row < height as usize
        invariant
            row <= h,
            h == height,
            w == width,
            width_usize == width,
            ix == indices@,
            ix.len() == w * h,
            ix.len() == expected_pixels(width, height),
            bits == 1 || bits == 2 || bits == 4,
            nb == bits,
            ppb * nb == 8,
            ppb == per_byte(nb),
            ppb >= 2,
            rb == packed_row_len(width as nat, nb),
            max_index == ((1u16 << bits) - 1) as u8,
            nb == spec_bits(bit_depth),
            max_index == spec_max_index(nb),
            out@ == packed_rows(ix, width as nat, row as nat, nb),
            forall|q: int| 0 <= q < row * w ==> #[trigger] ix[q] <= max_index,
        decreases h - row,
    {
        proof {
            assert((row + 1) * w <= h * w) by (nonlinear_arith)
                requires
                    row + 1 <= h,
                    0 <= w,
            ;
            assert(h * w == w * h) by (nonlinear_arith);
            assert(row * w + w == (row + 1) * w) by (nonlinear_arith);
            assert(0 <= row * w) by (nonlinear_arith)
                requires
                    0 <= row,
                    0 <= w,
            ;
        }
        let row_start = row * width_usize;
        let row_end = row_start + width_usize;
        let ghost out0 = out@;
        let mut acc: u8 = 0;
        let mut used_bits: u8 = 0;
        let ghost mut k: int = 0;
        let ghost mut t: int = 0;
        proof {
            assert((acc >> ((8 - used_bits) as u8)) << ((8 - used_bits) as u8) == acc) by (bit_vector)
                requires
                    acc == 0,
                    used_bits == 0,
            ;
        }
        let mut c = row_start;
        while c < row_end
            invariant
                row < h,
                h == height,
                w == width,
                ix == indices@,
                ix.len() == w * h,
                ix.len() == expected_pixels(width, height),
                max_index == ((1u16 << bits) - 1) as u8,
                nb == spec_bits(bit_depth),
                row_start == row * w,
                row_end == row_start + w,
                row_end <= ix.len(),
                row_start <= c <= row_end,
                bits == 1 || bits == 2 || bits == 4,
                nb == bits,
                ppb * nb == 8,
                ppb == per_byte(nb),
                ppb >= 2,
                max_index == spec_max_index(nb),
                c - row_start == k * ppb + t,
                0 <= k,
                0 <= t < ppb,
                used_bits == t * nb,
                used_bits < 8,
                acc as nat == pack_sum(ix, row_start as int, w, k, nb, t as nat),
                (acc >> ((8 - used_bits) as u8)) << ((8 - used_bits) as u8) == acc,
                out0 == packed_rows(ix, width as nat, row as nat, nb),
                out@ == out0 + Seq::new(
                    k as nat,
                    |q: int| pack_sum(ix, row_start as int, w, q, nb, ppb as nat) as u8,
                ),
                forall|q: int| 0 <= q < c ==> #[trigger] ix[q] <= max_index,
            decreases row_end - c,
        {
            let idx = indices[c];
            if idx > max_index {
                let mut m = owned("palette index out of range for ");
                push_decimal(&mut m, bits as u64);
                push_str(&mut m, "-bit mode: ");
                push_decimal(&mut m, idx as u64);
                proof {
                    assert(first_above(ix, spec_max_index(nb), c as int));
                    assert(ix[c as int] == indices@[c as int]);
                    assert(!all_at_most(ix, spec_max_index(nb)));
                }
                return Err(AppError::Encode(m));
            }
            proof {
                assert((t + 1) * nb <= 8) by (nonlinear_arith)
                    requires
                        0 <= t < ppb,
                        ppb * nb == 8,
                        nb >= 1,
                ;
                assert((t + 1) * nb == t * nb + nb) by (nonlinear_arith);
            }
            let shift: u8 = 8 - used_bits - bits;
            proof {
                lemma_small_index(idx, bits);
                lemma_or_add(acc, idx, shift, bits);
                lemma_shifted(idx, shift, bits);
                assert(shift == 8 - nb * (t + 1)) by (nonlinear_arith)
                    requires
                        used_bits == t * nb,
                        shift == 8 - used_bits - nb,
                ;
                assert(pack_term(ix, row_start as int, w, k, nb, t) == (idx as nat) * pow2(
                    shift as nat,
                ));
            }
            acc = acc | (idx << shift);
            used_bits = used_bits + bits;
            proof {
                t = t + 1;
                assert(used_bits == t * nb) by (nonlinear_arith)
                    requires
                        used_bits == (t - 1) * nb + nb,
                ;
            }
            if used_bits == 8 {
                proof {
                    assert(t == ppb) by (nonlinear_arith)
                        requires
                            t * nb == 8,
                            ppb * nb == 8,
                            nb >= 1,
                    ;
                }
                out.push(acc);
                acc = 0;
                used_bits = 0;
                proof {
                    assert(out@ =~= out0 + Seq::new(
                        (k + 1) as nat,
                        |q: int| pack_sum(ix, row_start as int, w, q, nb, ppb as nat) as u8,
                    ));
                    assert(k * ppb + ppb == (k + 1) * ppb) by (nonlinear_arith);
                    k = k + 1;
                    t = 0;
                    assert((acc >> ((8 - used_bits) as u8)) << ((8 - used_bits) as u8) == acc) by (bit_vector)
                        requires
                            acc == 0,
                            used_bits == 0,
                    ;
                }
            } else {
                proof {
                    assert(t < ppb) by (nonlinear_arith)
                        requires
                            t * nb < 8,
                            ppb * nb == 8,
                            nb >= 1,
                    ;
                }
            }
            c = c + 1;
        }
        proof {
            lemma_row_len(w, ppb, k, t);
        }
        if used_bits > 0 {
            proof {
                lemma_pack_tail(ix, row_start as int, w, k, nb, t as nat);
            }
            out.push(acc);
            proof {
                assert(out@ =~= out0 + Seq::new(
                    (k + 1) as nat,
                    |q: int| pack_sum(ix, row_start as int, w, q, nb, ppb as nat) as u8,
                ));
            }
        }
        proof {
            assert(rb == if t > 0 { k + 1 } else { k });
            let rows_new = packed_rows(ix, width as nat, (row + 1) as nat, nb);
            assert(out0.len() == row * rb);
            assert(rows_new.len() == (row + 1) * rb) by (nonlinear_arith)
                requires
                    rows_new.len() == (row + 1) * rb,
            ;
            assert((row + 1) * rb == row * rb + rb) by (nonlinear_arith);
            assert forall|p: int| 0 <= p < rows_new.len() implies #[trigger] rows_new[p] == out@[p] by {
                if p < row * rb {
                    lemma_fundamental_div_mod(p, rb);
                } else {
                    lemma_fundamental_div_mod_converse(p, rb, row as int, p - row * rb);
                }
            }
            assert(rows_new =~= out@);
        }
        row = row + 1;
    }
    proof {
        assert(row * w == w * h) by (nonlinear_arith)
            requires
                row == h,
        ;
        assert(all_at_most(ix, spec_max_index(nb)));
    }
    Ok(out)
}

// ---------------------------------------------------------------- chunk framing

/// The CRC-32 (ISO-HDLC, as used by PNG) of `data`, as `crc32fast` computes it.
pub uninterp spec fn crc32(data: Seq<u8>) -> u32;

/// `crc32fast::hash`: the CRC-32 of the bytes. Its value is given a name, not
/// spelled out; the name depends on the bytes alone.
#[verifier::external_body]
fn crc32_hash(data: &[u8]) -> (r: u32)
    ensures
        r == crc32(data@),
{
    crc32fast::hash(data)
}

/// The four big-endian bytes of `v`.
pub open spec fn be32(v: u32) -> Seq<u8> {
    seq![
        (v / 0x1000000) as u8,
        ((v / 0x10000) % 0x100) as u8,
        ((v / 0x100) % 0x100) as u8,
        (v % 0x100) as u8,
    ]
}

/// Appends `v` as four big-endian bytes.
pub fn push_be32(out: &mut Vec<u8>, v: u32)
    ensures
        final(out)@ == old(out)@ + be32(v),
{
    out.push((v / 0x1000000) as u8);
    out.push(((v / 0x10000) % 0x100) as u8);
    out.push(((v / 0x100) % 0x100) as u8);
    out.push((v % 0x100) as u8);
    proof {
        assert(out@ =~= old(out)@ + be32(v));
    }
}

/// A PNG chunk: the data length (modulo 2^32), the type, the data, and the
/// CRC of type and data.
pub open spec fn png_chunk(chunk_type: Seq<u8>, data: Seq<u8>) -> Seq<u8> {
    be32(data.len() as u32) + chunk_type + data + be32(crc32(chunk_type + data))
}

pub(crate) fn append_bytes(out: &mut Vec<u8>, data: &[u8])
    ensures
        final(out)@ == old(out)@ + data@,
{
    out.extend_from_slice(data);
}

/// Appends one PNG chunk: length, type, data and CRC.
pub fn write_png_chunk(out: &mut Vec<u8>, chunk_type: [u8; 4], data: &[u8])
    ensures
        final(out)@ == old(out)@ + png_chunk(chunk_type@, data@),
{
    push_be32(out, data.len() as u32);
    append_bytes(out, chunk_type.as_slice());
    append_bytes(out, data);
    let mut crc_input: Vec<u8> = Vec::new();
    append_bytes(&mut crc_input, chunk_type.as_slice());
    append_bytes(&mut crc_input, data);
    let crc = crc32_hash(crc_input.as_slice());
    push_be32(out, crc);
    proof {
        assert(out@ =~= old(out)@ + png_chunk(chunk_type@, data@));
    }
}

// ---------------------------------------------------------------- compression

/// `zlib_rs::compress_bound`: the output room that deflating `len` bytes
/// never exceeds.
pub uninterp spec fn zlib_bound(len: nat) -> nat;

/// `zlib_rs::compress_bound`: the input length, one byte more for an empty
/// input and one more below 9 bytes, one byte per 8 input bytes (rounded
/// up), and 9 bytes of block and zlib framing. Its sums wrap around, so the
/// value is named for every length and spelled out for lengths far from
/// overflow.
#[verifier::external_body]
fn compress_bound(len: usize) -> (r: usize)
    ensures
        r as nat == zlib_bound(len as nat),
        len <= 0xE000_0000 ==> r == len + (if len == 0 { 1int } else { 0 }) + (if len < 9 { 1int } else { 0 })
            + (len + 7) / 8 + 9,
{
    zlib_rs::compress_bound(len)
}

/// What `zlib_rs::compress_slice` produces for `input` into a buffer of
/// `capacity` bytes, with the given level and memory level and the crate's
/// defaults otherwise: the compressed bytes, and the name of the return code
/// when it is not `Ok`. The value is named, not spelled out.
pub uninterp spec fn zlib_deflate(input: Seq<u8>, capacity: nat, level: int, mem_level: int) -> (
    Seq<u8>,
    Option<Seq<char>>,
);

/// `zlib_rs::compress_slice` into a zeroed buffer of `capacity` bytes. Returns
/// the bytes it wrote and, when the return code is not `Ok`, that code's
/// `Debug` name. Both are the named result above.
#[verifier::external_body]
fn deflate(input: &[u8], capacity: usize, level: i32, mem_level: i32) -> (r: (Vec<u8>, Option<String>))
    ensures
        zlib_deflate(input@, capacity as nat, level as int, mem_level as int) == (
            r.0@,
            match r.1 {
                Some(m) => Some(m@),
                None => None::<Seq<char>>,
            },
        ),
{
    let mut buf = vec![0u8; capacity];
    let config = zlib_rs::DeflateConfig { level, mem_level, ..zlib_rs::DeflateConfig::default() };
    let (data, rc) = zlib_rs::compress_slice(&mut buf, input, config);
    let out = data.to_vec();
    match rc {
        zlib_rs::ReturnCode::Ok => (out, None),
        _ => (out, Some(format!("{rc:?}"))),
    }
}

/// The compressed form of `input` at the given level and memory level, with
/// an output buffer of `compress_bound` bytes.
pub open spec fn deflated(input: Seq<u8>, level: int, mem_level: int) -> (Seq<u8>, Option<Seq<char>>) {
    zlib_deflate(input, zlib_bound(input.len()), level, mem_level)
}

// ---------------------------------------------------------------- decoding

/// What the `image` crate decodes a PNG to, converted to 8-bit RGBA: the
/// width, the height and the pixels, or the text of its error. The value is
/// named, not spelled out.
pub uninterp spec fn png_rgba(input: Seq<u8>) -> Result<(u32, u32, Seq<u8>), Seq<char>>;

/// `image::load_from_memory_with_format` with the PNG format, then
/// `to_rgba8`: the named result above, the pixels as a plain buffer and an
/// error as its `Display` text.
#[verifier::external_body]
fn load_png_rgba(input: &[u8]) -> (r: Result<(u32, u32, Vec<u8>), String>)
    ensures
        png_rgba(input@) == match r {
            Ok(v) => Ok((v.0, v.1, v.2@)),
            Err(e) => Err(e@),
        },
{
    match image::load_from_memory_with_format(input, image::ImageFormat::Png) {
        Ok(img) => {
            let rgba = img.to_rgba8();
            Ok((rgba.width(), rgba.height(), rgba.into_raw()))
        },
        Err(e) => Err(e.to_string()),
    }
}

/// What decoding makes of the decoder's result: the pixels as they are, or
/// a `Decode` error that carries the decoder's message.
pub fn decoded_or_error(loaded: Result<(u32, u32, Vec<u8>), String>) -> (r: Result<(u32, u32, Vec<u8>), AppError>)
    ensures
        match loaded {
            Ok(v) => r matches Ok(d) && d.0 == v.0 && d.1 == v.1 && d.2@ == v.2@,
            Err(t) => r matches Err(AppError::Decode(m)) && m@ == "failed to decode PNG: "@ + t@,
        },
{
    match loaded {
        Ok(v) => Ok(v),
        Err(t) => {
            let mut m = owned("failed to decode PNG: ");
            push_str(&mut m, t.as_str());
            Err(AppError::Decode(m))
        },
    }
}

/// Decodes a PNG to 8-bit RGBA pixels: the width, the height and the
/// pixels, or a `Decode` error that carries the decoder's message.
pub fn decode_png_rgba(input: &[u8]) -> (r: Result<(u32, u32, Vec<u8>), AppError>)
    ensures
        match png_rgba(input@) {
            Ok(v) => r matches Ok(d) && d.0 == v.0 && d.1 == v.1 && d.2@ == v.2,
            Err(t) => r matches Err(AppError::Decode(m)) && m@ == "failed to decode PNG: "@ + t,
        },
{
    decoded_or_error(load_png_rgba(input))
}

// ---------------------------------------------------------------- metadata

/// pHYs: pixels per unit on each axis, and whether the unit is the meter.
#[derive(Debug, Clone, Copy, PartialEq, Eq)]
pub struct PixelDims {
    pub xppu: u32,
    pub yppu: u32,
    pub unit_is_meter: bool,
}

/// cICP: coding-independent code points.
#[derive(Debug, Clone, Copy, PartialEq, Eq)]
pub struct CodePoints {
    pub color_primaries: u8,
    pub transfer_function: u8,
    pub matrix_coefficients: u8,
    pub is_video_full_range_image: bool,
}

/// The ancillary chunks of an input that an output keeps unless stripped.
#[derive(Debug, Clone)]
pub struct PreservedMetadata {
    /// gAMA, scaled by 100000.
    pub source_gamma: Option<u32>,
    /// cHRM: white, red, green, blue (x, y), each scaled by 100000.
    pub source_chromaticities: Option<[u32; 8]>,
    /// sRGB rendering intent.
    pub srgb: Option<u8>,
    pub pixel_dims: Option<PixelDims>,
    pub icc_profile: Option<Vec<u8>>,
    pub cicp: Option<CodePoints>,
    pub exif_metadata: Option<Vec<u8>>,
    /// tEXt, zTXt and iTXt chunks, each already framed as a whole chunk.
    pub text_chunks: Vec<Vec<u8>>,
}

pub open spec fn ihdr_type() -> Seq<u8> { seq![73u8, 72u8, 68u8, 82u8] }
pub open spec fn cicp_type() -> Seq<u8> { seq![99u8, 73u8, 67u8, 80u8] }
pub open spec fn phys_type() -> Seq<u8> { seq![112u8, 72u8, 89u8, 115u8] }
pub open spec fn srgb_type() -> Seq<u8> { seq![115u8, 82u8, 71u8, 66u8] }
pub open spec fn gama_type() -> Seq<u8> { seq![103u8, 65u8, 77u8, 65u8] }
pub open spec fn chrm_type() -> Seq<u8> { seq![99u8, 72u8, 82u8, 77u8] }
pub open spec fn iccp_type() -> Seq<u8> { seq![105u8, 67u8, 67u8, 80u8] }
pub open spec fn exif_type() -> Seq<u8> { seq![101u8, 88u8, 73u8, 102u8] }
pub open spec fn plte_type() -> Seq<u8> { seq![80u8, 76u8, 84u8, 69u8] }
pub open spec fn trns_type() -> Seq<u8> { seq![116u8, 82u8, 78u8, 83u8] }
pub open spec fn idat_type() -> Seq<u8> { seq![73u8, 68u8, 65u8, 84u8] }
pub open spec fn iend_type() -> Seq<u8> { seq![73u8, 69u8, 78u8, 68u8] }

/// The PNG file signature.
pub open spec fn png_signature() -> Seq<u8> {
    seq![137u8, 80u8, 78u8, 71u8, 13u8, 10u8, 26u8, 10u8]
}

pub open spec fn cicp_data(c: CodePoints) -> Seq<u8> {
    seq![
        c.color_primaries,
        c.transfer_function,
        c.matrix_coefficients,
        if c.is_video_full_range_image { 1u8 } else { 0u8 },
    ]
}

pub open spec fn phys_data(d: PixelDims) -> Seq<u8> {
    be32(d.xppu) + be32(d.yppu) + seq![if d.unit_is_meter { 1u8 } else { 0u8 }]
}

pub open spec fn chrm_data(c: [u32; 8]) -> Seq<u8> {
    be32(c[0]) + be32(c[1]) + be32(c[2]) + be32(c[3]) + be32(c[4]) + be32(c[5]) + be32(c[6]) + be32(
        c[7],
    )
}

/// The iCCP payload: profile name "_", its terminator, compression method 0,
/// then the profile deflated with the default settings.
pub open spec fn iccp_data(icc: Seq<u8>) -> Seq<u8> {
    seq![95u8, 0u8, 0u8] + deflated(icc, -1, 8).0
}

pub open spec fn cicp_chunk(o: Option<CodePoints>) -> Seq<u8> {
    match o {
        Some(c) => png_chunk(cicp_type(), cicp_data(c)),
        None => Seq::empty(),
    }
}

pub open spec fn phys_chunk(o: Option<PixelDims>) -> Seq<u8> {
    match o {
        Some(d) => png_chunk(phys_type(), phys_data(d)),
        None => Seq::empty(),
    }
}

pub open spec fn gama_chunk(o: Option<u32>) -> Seq<u8> {
    match o {
        Some(g) => png_chunk(gama_type(), be32(g)),
        None => Seq::empty(),
    }
}

pub open spec fn chrm_chunk(o: Option<[u32; 8]>) -> Seq<u8> {
    match o {
        Some(c) => png_chunk(chrm_type(), chrm_data(c)),
        None => Seq::empty(),
    }
}

pub open spec fn iccp_chunk(o: Option<Vec<u8>>) -> Seq<u8> {
    match o {
        Some(icc) => png_chunk(iccp_type(), iccp_data(icc@)),
        None => Seq::empty(),
    }
}

pub open spec fn exif_chunk(o: Option<Vec<u8>>) -> Seq<u8> {
    match o {
        Some(e) => png_chunk(exif_type(), e@),
        None => Seq::empty(),
    }
}

/// The color-space chunks: sRGB alone when present (it implies gAMA and
/// cHRM), else gAMA, cHRM and iCCP as present.
pub open spec fn color_chunks(m: PreservedMetadata) -> Seq<u8> {
    match m.srgb {
        Some(intent) => png_chunk(srgb_type(), seq![intent]),
        None => gama_chunk(m.source_gamma) + chrm_chunk(m.source_chromaticities) + iccp_chunk(
            m.icc_profile,
        ),
    }
}

/// The metadata chunks written between IHDR and PLTE: cICP (first, as
/// decoders demand), pHYs, the color-space chunks, eXIf.
pub open spec fn meta_chunks(m: PreservedMetadata) -> Seq<u8> {
    cicp_chunk(m.cicp) + phys_chunk(m.pixel_dims) + color_chunks(m) + exif_chunk(m.exif_metadata)
}

/// The concatenation of the byte strings.
pub open spec fn concat_all(parts: Seq<Vec<u8>>) -> Seq<u8>
    decreases parts.len(),
{
    if parts.len() == 0 {
        Seq::empty()
    } else {
        concat_all(parts.drop_last()) + parts.last()@
    }
}

fn write_cicp(out: &mut Vec<u8>, cicp: CodePoints)
    ensures
        final(out)@ == old(out)@ + cicp_chunk(Some(cicp)),
{
    let data: [u8; 4] = [
        cicp.color_primaries,
        cicp.transfer_function,
        cicp.matrix_coefficients,
        if cicp.is_video_full_range_image { 1u8 } else { 0u8 },
    ];
    proof {
        assert(data@ =~= cicp_data(cicp));
    }
    write_png_chunk(out, [99u8, 73u8, 67u8, 80u8], data.as_slice());
}

fn write_phys(out: &mut Vec<u8>, pd: PixelDims)
    ensures
        final(out)@ == old(out)@ + phys_chunk(Some(pd)),
{
    let mut phys: Vec<u8> = Vec::new();
    push_be32(&mut phys, pd.xppu);
    push_be32(&mut phys, pd.yppu);
    phys.push(if pd.unit_is_meter { 1u8 } else { 0u8 });
    proof {
        assert(phys@ =~= phys_data(pd));
    }
    write_png_chunk(out, [112u8, 72u8, 89u8, 115u8], phys.as_slice());
}

fn write_chrm(out: &mut Vec<u8>, chrm: [u32; 8])
    ensures
        final(out)@ == old(out)@ + chrm_chunk(Some(chrm)),
{
    let mut data: Vec<u8> = Vec::new();
    let mut k: usize = 0;
    while k < 8
        invariant
            k <= 8,
            data@.len() == 4 * k,
            forall|q: int| 0 <= q < k ==> data@.subrange(4 * q, 4 * q + 4) == be32(#[trigger] chrm[q]),
        decreases 8 - k,
    {
        let ghost before = data@;
        push_be32(&mut data, chrm[k]);
        proof {
            assert forall|q: int| 0 <= q < k + 1 implies data@.subrange(4 * q, 4 * q + 4) == be32(
                #[trigger] chrm[q],
            ) by {
                if q < k {
                    assert(data@.subrange(4 * q, 4 * q + 4) =~= before.subrange(4 * q, 4 * q + 4));
                } else {
                    assert(data@.subrange(4 * q, 4 * q + 4) =~= be32(chrm[q]));
                }
            }
        }
        k = k + 1;
    }
    proof {
        let d = chrm_data(chrm);
        assert forall|i: int| 0 <= i < 32 implies #[trigger] data@[i] == d[i] by {
            let q = i / 4;
            assert(data@.subrange(4 * q, 4 * q + 4) == be32(chrm[q]));
            assert(data@[i] == data@.subrange(4 * q, 4 * q + 4)[i - 4 * q]);
        }
        assert(data@ =~= d);
    }
    write_png_chunk(out, [99u8, 72u8, 82u8, 77u8], data.as_slice());
}

fn write_iccp(out: &mut Vec<u8>, icc: &Vec<u8>)
    ensures
        final(out)@ == old(out)@ + png_chunk(iccp_type(), iccp_data(icc@)),
{
    let mut iccp: Vec<u8> = Vec::new();
    iccp.push(95u8);
    iccp.push(0u8);
    iccp.push(0u8);
    let cap = compress_bound(icc.len());
    let compressed = deflate(icc.as_slice(), cap, -1, 8);
    append_bytes(&mut iccp, compressed.0.as_slice());
    proof {
        assert(iccp@ =~= iccp_data(icc@));
    }
    write_png_chunk(out, [105u8, 67u8, 67u8, 80u8], iccp.as_slice());
}

fn write_color_chunks(out: &mut Vec<u8>, meta: &PreservedMetadata)
    ensures
        final(out)@ == old(out)@ + color_chunks(*meta),
{
    if let Some(intent) = meta.srgb {
        let data: [u8; 1] = [intent];
        proof {
            assert(data@ =~= seq![intent]);
        }
        write_png_chunk(out, [115u8, 82u8, 71u8, 66u8], data.as_slice());
    } else {
        if let Some(gamma) = meta.source_gamma {
            let mut data: Vec<u8> = Vec::new();
            push_be32(&mut data, gamma);
            write_png_chunk(out, [103u8, 65u8, 77u8, 65u8], data.as_slice());
        }
        let ghost after_gama = out@;
        if let Some(chrm) = meta.source_chromaticities {
            write_chrm(out, chrm);
        }
        let ghost after_chrm = out@;
        if let Some(icc) = &meta.icc_profile {
            write_iccp(out, icc);
        }
        proof {
            assert(out@ =~= old(out)@ + color_chunks(*meta));
        }
    }
}

fn write_metadata_chunks(out: &mut Vec<u8>, meta: &PreservedMetadata)
    ensures
        final(out)@ == old(out)@ + meta_chunks(*meta),
{
    if let Some(cicp) = meta.cicp {
        write_cicp(out, cicp);
    }
    let ghost a1 = out@;
    if let Some(pd) = meta.pixel_dims {
        write_phys(out, pd);
    }
    let ghost a2 = out@;
    write_color_chunks(out, meta);
    let ghost a3 = out@;
    if let Some(exif) = &meta.exif_metadata {
        write_png_chunk(out, [101u8, 88u8, 73u8, 102u8], exif.as_slice());
    }
    proof {
        assert(out@ =~= old(out)@ + meta_chunks(*meta));
    }
}

fn write_text_chunks(out: &mut Vec<u8>, meta: &PreservedMetadata)
    ensures
        final(out)@ == old(out)@ + concat_all(meta.text_chunks@),
{
    let n = meta.text_chunks.len();
    let mut k: usize = 0;
    while k < n
        invariant
            k <= n,
            n == meta.text_chunks@.len(),
            out@ == old(out)@ + concat_all(meta.text_chunks@.subrange(0, k as int)),
        decreases n - k,
    {
        append_bytes(out, meta.text_chunks[k].as_slice());
        proof {
            let s = meta.text_chunks@.subrange(0, k + 1);
            assert(s.drop_last() =~= meta.text_chunks@.subrange(0, k as int));
        }
        k = k + 1;
    }
    proof {
        assert(meta.text_chunks@.subrange(0, n as int) =~= meta.text_chunks@);
    }
}

// ---------------------------------------------------------------- the encoder

/// The IHDR payload of an indexed image: width, height, bit depth, color
/// type 3, then compression, filter and interlace methods 0.
pub open spec fn ihdr_data(width: u32, height: u32, bits: nat) -> Seq<u8> {
    be32(width) + be32(height) + seq![bits as u8, 3u8, 0u8, 0u8, 0u8]
}

/// The PLTE payload: the red, green and blue of each entry.
pub open spec fn plte_data(pal: Seq<[u8; 4]>) -> Seq<u8>
    decreases pal.len(),
{
    if pal.len() == 0 {
        Seq::empty()
    } else {
        plte_data(pal.drop_last()) + seq![pal.last()[0], pal.last()[1], pal.last()[2]]
    }
}

/// The number of palette entries up to and including the last one that is
/// not fully opaque (zero when all are opaque).
pub open spec fn trns_len(pal: Seq<[u8; 4]>) -> nat
    decreases pal.len(),
{
    if pal.len() == 0 {
        0
    } else if pal.last()[3] < 255 {
        pal.len()
    } else {
        trns_len(pal.drop_last())
    }
}

/// The tRNS chunk: the alphas of the first `trns_len` entries, and no
/// chunk at all when every entry is opaque.
proof fn lemma_trns_len(pal: Seq<[u8; 4]>)
    ensures
        trns_len(pal) <= pal.len(),
        forall|i: int| trns_len(pal) <= i < pal.len() ==> #[trigger] pal[i][3] == 255,
        trns_len(pal) > 0 ==> pal[trns_len(pal) - 1][3] < 255,
    decreases pal.len(),
{
    if pal.len() > 0 && pal.last()[3] >= 255 {
        let d = pal.drop_last();
        lemma_trns_len(d);
        assert forall|i: int| trns_len(pal) <= i < pal.len() implies #[trigger] pal[i][3] == 255 by {
            if i < d.len() {
                assert(pal[i] == d[i]);
            }
        }
    }
}

/// Law: the tRNS chunk gives back every palette entry's alpha. It is left
/// out exactly when every entry is opaque; otherwise it holds the alpha of
/// each entry up to the last translucent one, in palette order, and every
/// entry past its end is opaque.
pub proof fn lemma_trns_keeps_every_alpha(pal: Seq<[u8; 4]>)
    ensures
        trns_chunk(pal).len() == 0 <==> forall|i: int| 0 <= i < pal.len() ==> #[trigger] pal[i][3] == 255,
        trns_chunk(pal).len() > 0 ==> exists|data: Seq<u8>|
            #[trigger] png_chunk(trns_type(), data) == trns_chunk(pal) && data.len() <= pal.len() && (forall|i: int|
                0 <= i < data.len() ==> #[trigger] data[i] == pal[i][3]) && (forall|i: int|
                data.len() <= i < pal.len() ==> #[trigger] pal[i][3] == 255),
{
    lemma_trns_len(pal);
    let n = trns_len(pal);
    if n > 0 {
        let data = Seq::new(n, |i: int| pal[i][3]);
        assert(png_chunk(trns_type(), data) == trns_chunk(pal));
        assert(png_chunk(trns_type(), data).len() >= 12);
        assert(!(forall|i: int| 0 <= i < pal.len() ==> #[trigger] pal[i][3] == 255)) by {
            assert(pal[n - 1][3] < 255);
        }
    }
}

pub open spec fn trns_chunk(pal: Seq<[u8; 4]>) -> Seq<u8> {
    if trns_len(pal) == 0 {
        Seq::empty()
    } else {
        png_chunk(trns_type(), Seq::new(trns_len(pal), |i: int| pal[i][3]))
    }
}

/// The largest IDAT payload written in one chunk.
pub open spec fn max_idat_len() -> nat {
    0x7fff_ffff
}

/// The compressed stream cut into IDAT chunks of at most `max_idat_len`
/// bytes each.
pub open spec fn idat_chunks(d: Seq<u8>) -> Seq<u8>
    decreases d.len(),
{
    if d.len() == 0 {
        Seq::empty()
    } else if d.len() <= max_idat_len() {
        png_chunk(idat_type(), d)
    } else {
        png_chunk(idat_type(), d.take(max_idat_len() as int)) + idat_chunks(d.skip(max_idat_len() as int))
    }
}

/// `h` packed rows of `rb` bytes, each preceded by filter type 0.
pub open spec fn filtered_rows(packed: Seq<u8>, rb: nat, h: nat) -> Seq<u8>
    decreases h,
{
    if h == 0 {
        Seq::empty()
    } else {
        filtered_rows(packed, rb, (h - 1) as nat) + seq![0u8] + packed.subrange(
            ((h - 1) * rb) as int,
            (h * rb) as int,
        )
    }
}

/// The metadata an encoding writes: none when stripped or absent.
pub open spec fn kept_meta(metadata: Option<PreservedMetadata>, strip: bool) -> (Seq<u8>, Seq<u8>) {
    match metadata {
        Some(m) if !strip => (meta_chunks(m), concat_all(m.text_chunks@)),
        _ => (Seq::empty(), Seq::empty()),
    }
}

/// A whole indexed PNG file around an already compressed image stream.
pub open spec fn png_file(
    width: u32,
    height: u32,
    bits: nat,
    pal: Seq<[u8; 4]>,
    metadata: Option<PreservedMetadata>,
    strip: bool,
    compressed: Seq<u8>,
) -> Seq<u8> {
    png_signature() + png_chunk(ihdr_type(), ihdr_data(width, height, bits)) + kept_meta(metadata, strip).0
        + png_chunk(plte_type(), plte_data(pal)) + trns_chunk(pal) + kept_meta(metadata, strip).1
        + idat_chunks(compressed) + png_chunk(iend_type(), Seq::empty())
}

pub open spec fn packed_mismatch_msg(expected: nat, actual: nat) -> Seq<char> {
    "packed data length mismatch: expected="@ + decimal(expected) + ", actual="@ + decimal(actual)
}

pub open spec fn zlib_failure_msg(code: Seq<char>) -> Seq<char> {
    "zlib compression failed: "@ + code
}

/// What encoding packed rows gives: the file, or the message of the
/// encoding error.
pub open spec fn raw_encoding(
    width: u32,
    height: u32,
    bits: nat,
    packed: Seq<u8>,
    pal: Seq<[u8; 4]>,
    metadata: Option<PreservedMetadata>,
    strip: bool,
    level: int,
    mem_level: int,
) -> Result<Seq<u8>, Seq<char>> {
    let rb = spec_row_bytes(width as nat, bits);
    if packed.len() != rb * height {
        Err(packed_mismatch_msg((rb * height) as nat, packed.len()))
    } else {
        let (compressed, code) = deflated(filtered_rows(packed, rb, height as nat), level, mem_level);
        match code {
            Some(c) => Err(zlib_failure_msg(c)),
            None => Ok(png_file(width, height, bits, pal, metadata, strip, compressed)),
        }
    }
}

pub open spec fn meta_value(metadata: Option<&PreservedMetadata>) -> Option<PreservedMetadata> {
    match metadata {
        Some(m) => Some(*m),
        None => None,
    }
}

/// Relates a returned result to the outcome it stands for.
pub open spec fn encoded_as(r: Result<Vec<u8>, AppError>, outcome: Result<Seq<u8>, Seq<char>>) -> bool {
    match r {
        Ok(v) => outcome == Ok::<Seq<u8>, Seq<char>>(v@),
        Err(AppError::Encode(m)) => outcome == Err::<Seq<u8>, Seq<char>>(m@),
        Err(_) => false,
    }
}

fn write_plte(out: &mut Vec<u8>, pal: &Vec<[u8; 4]>)
    ensures
        final(out)@ == old(out)@ + png_chunk(plte_type(), plte_data(pal@)),
{
    let mut data: Vec<u8> = Vec::new();
    let mut k: usize = 0;
    while k < pal.len()
        invariant
            k <= pal@.len(),
            data@ == plte_data(pal@.subrange(0, k as int)),
        decreases pal@.len() - k,
    {
        let e = pal[k];
        data.push(e[0]);
        data.push(e[1]);
        data.push(e[2]);
        proof {
            assert(pal@.subrange(0, k + 1).drop_last() =~= pal@.subrange(0, k as int));
            assert(data@ =~= plte_data(pal@.subrange(0, k + 1)));
        }
        k = k + 1;
    }
    proof {
        assert(pal@.subrange(0, pal@.len() as int) =~= pal@);
    }
    write_png_chunk(out, [80u8, 76u8, 84u8, 69u8], data.as_slice());
}

fn write_trns(out: &mut Vec<u8>, pal: &Vec<[u8; 4]>)
    ensures
        final(out)@ == old(out)@ + trns_chunk(pal@),
{
    let mut n: usize = pal.len();
    proof {
        assert(pal@.subrange(0, pal@.len() as int) =~= pal@);
    }
    while n > 0 && pal[n - 1][3] == 255
        invariant
            n <= pal@.len(),
            trns_len(pal@) == trns_len(pal@.subrange(0, n as int)),
        decreases n,
    {
        proof {
            assert(pal@.subrange(0, n as int).drop_last() =~= pal@.subrange(0, n - 1));
        }
        n = n - 1;
    }
    proof {
        assert(pal@.subrange(0, pal@.len() as int) =~= pal@);
        if n > 0 {
            assert(trns_len(pal@.subrange(0, n as int)) == n);
        }
    }
    if n > 0 {
        let mut alphas: Vec<u8> = Vec::new();
        let mut k: usize = 0;
        while k < n
            invariant
                k <= n,
                n <= pal@.len(),
                alphas@.len() == k,
                forall|i: int| 0 <= i < k ==> alphas@[i] == pal@[i][3],
            decreases n - k,
        {
            alphas.push(pal[k][3]);
            k = k + 1;
        }
        proof {
            assert(alphas@ =~= Seq::new(trns_len(pal@), |i: int| pal@[i][3]));
        }
        write_png_chunk(out, [116u8, 82u8, 78u8, 83u8], alphas.as_slice());
    }
}

fn write_idat(out: &mut Vec<u8>, data: &[u8])
    ensures
        final(out)@ == old(out)@ + idat_chunks(data@),
{
    let max: usize = 0x7fff_ffff;
    let len = data.len();
    let mut off: usize = 0;
    proof {
        assert(data@.subrange(0, len as int) =~= data@);
    }
    while off < len
        invariant
            off <= len,
            len == data@.len(),
            max == max_idat_len(),
            old(out)@ + idat_chunks(data@) == out@ + idat_chunks(data@.subrange(off as int, len as int)),
        decreases len - off,
    {
        let rest = len - off;
        let ghost tail = data@.subrange(off as int, len as int);
        let ghost before = out@;
        if rest <= max {
            write_png_chunk(out, [73u8, 68u8, 65u8, 84u8], &data[off..len]);
            proof {
                assert(data@.subrange(len as int, len as int) =~= Seq::<u8>::empty());
                assert(out@ + Seq::<u8>::empty() =~= out@);
            }
            off = len;
        } else {
            let end = off + max;
            write_png_chunk(out, [73u8, 68u8, 65u8, 84u8], &data[off..end]);
            proof {
                assert(tail.take(max as int) =~= data@.subrange(off as int, end as int));
                assert(tail.skip(max as int) =~= data@.subrange(end as int, len as int));
                assert(idat_chunks(tail) == png_chunk(idat_type(), tail.take(max as int)) + idat_chunks(
                    tail.skip(max as int),
                ));
                assert(before + idat_chunks(tail) =~= out@ + idat_chunks(data@.subrange(end as int, len as int)));
            }
            off = end;
        }
    }
    proof {
        assert(data@.subrange(len as int, len as int) =~= Seq::<u8>::empty());
        assert(out@ + Seq::<u8>::empty() =~= out@);
    }
}

fn filter_rows(packed: &Vec<u8>, rb: usize, height: u32) -> (r: Vec<u8>)
    requires
        rb > 0,
        packed@.len() == rb * height,
        (rb + 1) * height <= usize::MAX,
    ensures
        r@ == filtered_rows(packed@, rb as nat, height as nat),
{
    let mut out: Vec<u8> = Vec::new();
    let mut row: usize = 0;
    let h = height as usize;
    while row < h
        invariant
            row <= h,
            h == height,
            rb > 0,
            (rb + 1) * h <= usize::MAX,
            packed@.len() == rb * h,
            out@ == filtered_rows(packed@, rb as nat, row as nat),
        decreases h - row,
    {
        proof {
            assert((row + 1) * rb <= h * rb) by (nonlinear_arith)
                requires
                    row + 1 <= h,
            ;
            assert(row * rb + rb == (row + 1) * rb) by (nonlinear_arith);
            assert(rb * h == h * rb) by (nonlinear_arith);
            assert(h * rb <= (rb + 1) * h) by (nonlinear_arith);
        }
        let start = row * rb;
        let end = start + rb;
        out.push(0u8);
        append_bytes(&mut out, &packed.as_slice()[start..end]);
        row = row + 1;
    }
    out
}

/// Writes an indexed PNG around rows already packed at `bit_depth`: IHDR,
/// the metadata unless stripped, PLTE, tRNS when an entry is not opaque, the
/// text chunks unless stripped, the rows deflated at the given level and
/// memory level into IDAT chunks, and IEND.
pub fn encode_indexed_png_raw(
    width: u32,
    height: u32,
    bit_depth: BitDepth,
    packed_indices: &Vec<u8>,
    palette_rgba: &Vec<[u8; 4]>,
    metadata: Option<&PreservedMetadata>,
    strip: bool,
    compression_level: i32,
    mem_level: i32,
) -> (r: Result<Vec<u8>, AppError>)
    requires
        width > 0,
        width * spec_bits(bit_depth) + 7 <= usize::MAX,
        (spec_row_bytes(width as nat, spec_bits(bit_depth)) + 1) * height <= usize::MAX,
    ensures
        encoded_as(
            r,
            raw_encoding(
                width,
                height,
                spec_bits(bit_depth),
                packed_indices@,
                palette_rgba@,
                meta_value(metadata),
                strip,
                compression_level as int,
                mem_level as int,
            ),
        ),
{
    let ghost bits = spec_bits(bit_depth);
    proof {
        assert(spec_row_bytes(width as nat, bits) >= 1);
        assert(spec_row_bytes(width as nat, bits) * height <= (spec_row_bytes(width as nat, bits) + 1) * height)
            by (nonlinear_arith);
    }
    let row_bytes = row_byte_count(width, bit_depth);
    let expected = row_bytes * height as usize;
    if packed_indices.len() != expected {
        let mut m = owned("packed data length mismatch: expected=");
        push_decimal(&mut m, expected as u64);
        push_str(&mut m, ", actual=");
        push_decimal(&mut m, packed_indices.len() as u64);
        return Err(AppError::Encode(m));
    }
    let filtered = filter_rows(packed_indices, row_bytes, height);
    let bound = compress_bound(filtered.len());
    let (compressed, code) = deflate(filtered.as_slice(), bound, compression_level, mem_level);
    if let Some(c) = code {
        let mut m = owned("zlib compression failed: ");
        push_str(&mut m, c.as_str());
        return Err(AppError::Encode(m));
    }
    let mut out: Vec<u8> = Vec::new();
    let sig: [u8; 8] = [137u8, 80u8, 78u8, 71u8, 13u8, 10u8, 26u8, 10u8];
    append_bytes(&mut out, sig.as_slice());
    let mut ihdr: Vec<u8> = Vec::new();
    push_be32(&mut ihdr, width);
    push_be32(&mut ihdr, height);
    ihdr.push(bit_count(bit_depth));
    ihdr.push(3u8);
    ihdr.push(0u8);
    ihdr.push(0u8);
    ihdr.push(0u8);
    proof {
        assert(sig@ =~= png_signature());
        assert(ihdr@ =~= ihdr_data(width, height, bits));
    }
    write_png_chunk(&mut out, [73u8, 72u8, 68u8, 82u8], ihdr.as_slice());
    let ghost a1 = out@;
    if !strip {
        if let Some(meta) = metadata {
            write_metadata_chunks(&mut out, meta);
        }
    }
    let ghost a2 = out@;
    write_plte(&mut out, palette_rgba);
    write_trns(&mut out, palette_rgba);
    let ghost a3 = out@;
    if !strip {
        if let Some(meta) = metadata {
            write_text_chunks(&mut out, meta);
        }
    }
    let ghost a4 = out@;
    write_idat(&mut out, compressed.as_slice());
    write_png_chunk(&mut out, [73u8, 69u8, 78u8, 68u8], &[]);
    proof {
        let mv = meta_value(metadata);
        assert(a2 == a1 + kept_meta(mv, strip).0);
        assert(a4 == a3 + kept_meta(mv, strip).1);
        assert(out@ =~= png_file(width, height, bits, palette_rgba@, mv, strip, compressed@));
    }
    Ok(out)
}

/// `rayon::join`: runs both closures, possibly in parallel, and returns both
/// results; each result is one that its closure can return.
#[verifier::external_body]
fn join<A, B, RA, RB>(oper_a: A, oper_b: B) -> (r: (RA, RB)) where
    A: FnOnce() -> RA + Send,
    B: FnOnce() -> RB + Send,
    RA: Send,
    RB: Send,

    requires
        oper_a.requires(()),
        oper_b.requires(()),
    ensures
        oper_a.ensures((), r.0),
        oper_b.ensures((), r.1),
{
    rayon::join(oper_a, oper_b)
}

/// What packing the indices gives: the packed rows, or the message of the
/// encoding error.
pub open spec fn pack_outcome(ix: Seq<u8>, width: u32, height: u32, d: BitDepth) -> Result<Seq<u8>, Seq<char>> {
    let max = spec_max_index(spec_bits(d));
    if ix.len() != expected_pixels(width, height) {
        Err(index_count_mismatch_msg(expected_pixels(width, height), ix.len()))
    } else if d == BitDepth::Sixteen {
        Err(sixteen_bit_msg())
    } else if !all_at_most(ix, max) {
        Err(index_range_msg(spec_bits(d), ix[choose|p: int| first_above(ix, max, p)] as nat))
    } else {
        Ok(packed_rows(ix, width as nat, height as nat, spec_bits(d)))
    }
}

/// The first failure of the two, else the shorter output, the first on a tie.
pub open spec fn smaller_of(a: Result<Seq<u8>, Seq<char>>, b: Result<Seq<u8>, Seq<char>>) -> Result<
    Seq<u8>,
    Seq<char>,
> {
    match a {
        Err(m) => Err(m),
        Ok(x) => match b {
            Err(m) => Err(m),
            Ok(y) => Ok(if x.len() <= y.len() { x } else { y }),
        },
    }
}

/// What encoding a whole indexed image gives. At speed 10 and above the rows
/// are deflated once at level 1; below, at level 9 with memory levels 5 and
/// 8, keeping the smaller file.
pub open spec fn png_encoding(
    width: u32,
    height: u32,
    ix: Seq<u8>,
    pal: Seq<[u8; 4]>,
    metadata: Option<PreservedMetadata>,
    strip: bool,
    speed: u8,
) -> Result<Seq<u8>, Seq<char>> {
    let d = spec_indexed_bit_depth(pal.len());
    let bits = spec_bits(d);
    match pack_outcome(ix, width, height, d) {
        Err(m) => Err(m),
        Ok(packed) => if speed >= 10 {
            raw_encoding(width, height, bits, packed, pal, metadata, strip, 1, 8)
        } else {
            smaller_of(
                raw_encoding(width, height, bits, packed, pal, metadata, strip, 9, 5),
                raw_encoding(width, height, bits, packed, pal, metadata, strip, 9, 8),
            )
        },
    }
}

/// Law: `--strip` drops all metadata: a stripped encoding is the encoding of
/// the same image with no metadata at all.
pub proof fn lemma_strip_drops_metadata(
    width: u32,
    height: u32,
    ix: Seq<u8>,
    pal: Seq<[u8; 4]>,
    metadata: Option<PreservedMetadata>,
    speed: u8,
)
    ensures
        png_encoding(width, height, ix, pal, metadata, true, speed) == png_encoding(
            width,
            height,
            ix,
            pal,
            None,
            false,
            speed,
        ),
{
    assert(kept_meta(metadata, true) == kept_meta(None, false));
}

/// Law: below speed 10 the encoder keeps the smaller of its two
/// compressions, so its file is never longer than either one.
pub proof fn lemma_encoding_is_smallest(
    width: u32,
    height: u32,
    ix: Seq<u8>,
    pal: Seq<[u8; 4]>,
    metadata: Option<PreservedMetadata>,
    strip: bool,
    speed: u8,
)
    requires
        speed < 10,
        png_encoding(width, height, ix, pal, metadata, strip, speed) is Ok,
    ensures
        ({
            let d = spec_indexed_bit_depth(pal.len());
            let packed = packed_rows(ix, width as nat, height as nat, spec_bits(d));
            let out = png_encoding(width, height, ix, pal, metadata, strip, speed)->Ok_0;
            let a = raw_encoding(width, height, spec_bits(d), packed, pal, metadata, strip, 9, 5);
            let b = raw_encoding(width, height, spec_bits(d), packed, pal, metadata, strip, 9, 8);
            &&& a is Ok && b is Ok
            &&& out.len() <= a->Ok_0.len()
            &&& out.len() <= b->Ok_0.len()
            &&& (out == a->Ok_0 || out == b->Ok_0)
        }),
{
}

proof fn lemma_first_above_unique(ix: Seq<u8>, max: nat, p: int, q: int)
    requires
        first_above(ix, max, p),
        first_above(ix, max, q),
    ensures
        p == q,
{
    if p < q {
        assert(ix[p] <= max);
    } else if q < p {
        assert(ix[q] <= max);
    }
}

proof fn lemma_row_bytes_packed(width: nat, bits: nat)
    requires
        bits == 1 || bits == 2 || bits == 4 || bits == 8,
    ensures
        packed_row_len(width, bits) == spec_row_bytes(width, bits),
        spec_row_bytes(width, bits) <= width,
{
    if bits == 1 {
        assert(per_byte(1) == 8);
        assert(((width + 7) as nat) / 8 == (width * 1 + 7) / 8);
    } else if bits == 2 {
        assert(per_byte(2) == 4);
        assert(((width + 3) as nat) / 4 == (width * 2 + 7) / 8);
    } else if bits == 4 {
        assert(per_byte(4) == 2);
        assert(((width + 1) as nat) / 2 == (width * 4 + 7) / 8);
    } else {
        assert(per_byte(8) == 1);
        assert((width as nat) / 1 == (width * 8 + 7) / 8);
    }
}

/// Encodes an indexed image as a PNG file: picks the bit depth from the
/// palette size, packs the indices, and deflates the rows (see
/// [`png_encoding`]).
pub fn encode_indexed_png_to_vec(
    width: u32,
    height: u32,
    indices: &Vec<u8>,
    palette_rgba: &Vec<[u8; 4]>,
    metadata: Option<&PreservedMetadata>,
    strip: bool,
    speed: u8,
) -> (r: Result<Vec<u8>, AppError>)
    requires
        width > 0,
        width * 8 + 7 <= usize::MAX,
        (width + 1) * height <= usize::MAX,
        indices@.len() < usize::MAX,
    ensures
        encoded_as(
            r,
            png_encoding(width, height, indices@, palette_rgba@, meta_value(metadata), strip, speed),
        ),
{
    let bit_depth = indexed_bit_depth(palette_rgba.len());
    let ghost bits = spec_bits(bit_depth);
    let ghost max = spec_max_index(bits);
    let packed = match pack_indices_by_bit_depth(indices, width, height, bit_depth) {
        Ok(v) => v,
        Err(e) => {
            proof {
                if indices@.len() == expected_pixels(width, height) && !all_at_most(indices@, max) {
                    let p = choose|p: int|
                        first_above(indices@, max, p) && (e matches AppError::Encode(m) && m@
                            == index_range_msg(bits, #[trigger] indices@[p] as nat));
                    let q = choose|p: int| first_above(indices@, max, p);
                    lemma_first_above_unique(indices@, max, p, q);
                }
            }
            return Err(e);
        },
    };
    let ghost rb = spec_row_bytes(width as nat, bits);
    proof {
        lemma_row_bytes_packed(width as nat, bits);
        assert((rb + 1) * height <= (width + 1) * height) by (nonlinear_arith)
            requires
                rb <= width,
        ;
        assert(packed@.len() == rb * height) by (nonlinear_arith)
            requires
                packed@.len() == height * packed_row_len(width as nat, bits),
                packed_row_len(width as nat, bits) == rb,
        ;
    }
    if speed >= 10 {
        return encode_indexed_png_raw(width, height, bit_depth, &packed, palette_rgba, metadata, strip, 1, 8);
    }
    let ghost mv = meta_value(metadata);
    let packed_ref = &packed;
    let ghost want5 = raw_encoding(width, height, bits, packed@, palette_rgba@, mv, strip, 9, 5);
    let ghost want8 = raw_encoding(width, height, bits, packed@, palette_rgba@, mv, strip, 9, 8);
    let enc5 = (|| -> (o: Result<Vec<u8>, AppError>)
        requires
            width > 0,
            width * bits + 7 <= usize::MAX,
            (rb + 1) * height <= usize::MAX,
            rb == spec_row_bytes(width as nat, spec_bits(bit_depth)),
        ensures
            encoded_as(o, want5),
        {
            encode_indexed_png_raw(width, height, bit_depth, packed_ref, palette_rgba, metadata, strip, 9, 5)
        });
    let enc8 = (|| -> (o: Result<Vec<u8>, AppError>)
        requires
            width > 0,
            width * bits + 7 <= usize::MAX,
            (rb + 1) * height <= usize::MAX,
            rb == spec_row_bytes(width as nat, spec_bits(bit_depth)),
        ensures
            encoded_as(o, want8),
        {
            encode_indexed_png_raw(width, height, bit_depth, packed_ref, palette_rgba, metadata, strip, 9, 8)
        });
    let (out_ml5, out_ml8) = join(enc5, enc8);
    let out_ml5 = match out_ml5 {
        Ok(v) => v,
        Err(e) => {
            return Err(e);
        },
    };
    let out_ml8 = match out_ml8 {
        Ok(v) => v,
        Err(e) => {
            return Err(e);
        },
    };
    if out_ml5.len() <= out_ml8.len() {
        Ok(out_ml5)
    } else {
        Ok(out_ml8)
    }
}

// ---------------------------------------------------------------- palettes

/// The RGBA bytes of an indexed image: each index replaced by its palette
/// entry.
pub open spec fn remapped(ix: Seq<u8>, pal: Seq<[u8; 4]>) -> Seq<u8>
    decreases ix.len(),
{
    if ix.len() == 0 {
        Seq::empty()
    } else {
        remapped(ix.drop_last(), pal) + pal[ix.last() as int]@
    }
}

/// The RGBA bytes of an indexed image (see [`remapped`]).
pub fn remapped_rgba_from_indices(indices: &[u8], palette: &[[u8; 4]]) -> (out: Vec<u8>)
    requires
        forall|i: int| 0 <= i < indices@.len() ==> (#[trigger] indices@[i] as int) < palette@.len(),
    ensures
        out@ == remapped(indices@, palette@),
{
    let mut out: Vec<u8> = Vec::new();
    let mut i: usize = 0;
    while i < indices.len()
        invariant
            i <= indices@.len(),
            forall|k: int| 0 <= k < indices@.len() ==> (#[trigger] indices@[k] as int) < palette@.len(),
            out@ == remapped(indices@.take(i as int), palette@),
        decreases indices@.len() - i,
    {
        let px = palette[indices[i] as usize];
        let ghost before = out@;
        out.push(px[0]);
        out.push(px[1]);
        out.push(px[2]);
        out.push(px[3]);
        proof {
            assert(indices@.take(i + 1).drop_last() =~= indices@.take(i as int));
            assert(out@ =~= before + px@);
        }
        i = i + 1;
    }
    proof {
        assert(indices@.take(indices@.len() as int) =~= indices@);
    }
    out
}

/// `c` with its low `bits` bits cleared; 8 bits or more clear it all.
pub open spec fn posterized_value(c: u8, bits: u8) -> u8 {
    if bits == 0 {
        c
    } else if bits >= 8 {
        0
    } else {
        ((c as nat / pow2(bits as nat)) * pow2(bits as nat)) as u8
    }
}

pub open spec fn posterized_entry(e: [u8; 4], bits: u8) -> [u8; 4] {
    [
        posterized_value(e[0], bits),
        posterized_value(e[1], bits),
        posterized_value(e[2], bits),
        posterized_value(e[3], bits),
    ]
}

fn clear_low_bits(c: u8, shift: u8) -> (r: u8)
    requires
        1 <= shift < 8,
    ensures
        r == posterized_value(c, shift),
{
    let y = c >> shift;
    proof {
        lemma_u8_shr_is_div(c, shift);
        lemma_pow2_pos(shift as nat);
        lemma_fundamental_div_mod(c as int, pow2(shift as nat) as int);
        assert(y * pow2(shift as nat) <= c) by (nonlinear_arith)
            requires
                y == c as nat / pow2(shift as nat),
                pow2(shift as nat) > 0,
        ;
        lemma_u8_shl_is_mul(y, shift);
    }
    y << shift
}

/// Clears the low `bits` bits of every channel of every palette entry.
pub fn apply_posterize_palette(palette: &mut Vec<[u8; 4]>, bits: u8)
    ensures
        final(palette)@.len() == old(palette)@.len(),
        forall|i: int|
            0 <= i < old(palette)@.len() ==> #[trigger] final(palette)@[i] == posterized_entry(
                old(palette)@[i],
                bits,
            ),
{
    if bits == 0 {
        proof {
            assert forall|i: int| 0 <= i < palette@.len() implies #[trigger] palette@[i] == posterized_entry(
                palette@[i],
                bits,
            ) by {
                assert(palette@[i] =~= posterized_entry(palette@[i], bits));
            }
        }
        return;
    }
    let ghost orig = palette@;
    let mut i: usize = 0;
    while i < palette.len()
        invariant
            1 <= bits,
            i <= palette@.len(),
            palette@.len() == orig.len(),
            forall|j: int|
                0 <= j < orig.len() ==> #[trigger] palette@[j] == if j < i {
                    posterized_entry(orig[j], bits)
                } else {
                    orig[j]
                },
        decreases palette@.len() - i,
    {
        let px = palette[i];
        let mut q: [u8; 4] = [0u8; 4];
        if bits < 8 {
            q = [
                clear_low_bits(px[0], bits),
                clear_low_bits(px[1], bits),
                clear_low_bits(px[2], bits),
                clear_low_bits(px[3], bits),
            ];
        }
        proof {
            assert(q =~= posterized_entry(px, bits));
        }
        palette.set(i, q);
        i = i + 1;
    }
}

// ---------------------------------------------------------------- acceptance

/// Rejects a result whose quality score is below the requested minimum.
pub fn check_minimum_quality(quality: Option<&crate::cli::QualityRange>, quality_score: u8) -> (r: Result<
    (),
    AppError,
>)
    ensures
        match quality {
            Some(q) => if quality_score < q.min {
                r matches Err(AppError::QualityTooLow { minimum, actual }) && minimum == q.min && actual
                    == quality_score
            } else {
                r is Ok
            },
            None => r is Ok,
        },
{
    if let Some(range) = quality {
        if quality_score < range.min {
            return Err(AppError::QualityTooLow { minimum: range.min, actual: quality_score });
        }
    }
    Ok(())
}

/// Rejects an output larger than the most `--skip-if-larger` allows.
pub fn check_skip_if_larger(input_bytes: u64, output_bytes: u64, maximum_file_size: u64, quality_score: u8) -> (r:
    Result<(), AppError>)
    ensures
        output_bytes > maximum_file_size ==> r == Err::<(), AppError>(
            AppError::SkipIfLargerRejected {
                input_bytes,
                output_bytes,
                maximum_file_size,
                quality_score,
            },
        ),
        output_bytes <= maximum_file_size ==> r is Ok,
{
    if output_bytes > maximum_file_size {
        return Err(
            AppError::SkipIfLargerRejected { input_bytes, output_bytes, maximum_file_size, quality_score },
        );
    }
    Ok(())
}

// ---------------------------------------------------------------- color management

/// How the pixels of an input are brought to sRGB before quantization.
#[derive(Debug, Clone, Copy, PartialEq, Eq)]
pub enum ColorConversion {
    /// The pixels are left as they are.
    Keep,
    /// Through the embedded ICC profile.
    FromIccProfile,
    /// Through a profile built from gAMA (scaled by 100000) and cHRM.
    FromGammaChromaticities { gamma: u32, chromaticities: [u32; 8] },
}

/// A cICP chunk whose transfer function is PQ (16) or HLG (18) marks HDR
/// pixels, which an sRGB conversion would corrupt.
pub open spec fn spec_is_hdr(meta: Option<PreservedMetadata>) -> bool {
    match meta {
        Some(m) => match m.cicp {
            Some(c) => c.transfer_function == 16 || c.transfer_function == 18,
            None => false,
        },
        None => false,
    }
}

/// The conversion an input calls for: none with `--no-icc` or HDR pixels;
/// else its ICC profile if it has one; else gAMA with cHRM, when both are
/// present, there is no sRGB chunk and the gamma is in (0, 1].
pub open spec fn spec_color_conversion(meta: Option<PreservedMetadata>, no_icc: bool) -> ColorConversion {
    if no_icc || spec_is_hdr(meta) {
        ColorConversion::Keep
    } else {
        match meta {
            None => ColorConversion::Keep,
            Some(m) => if m.icc_profile is Some {
                ColorConversion::FromIccProfile
            } else {
                match (m.source_gamma, m.source_chromaticities) {
                    (Some(g), Some(c)) => if m.srgb is None && 0 < g <= 100000 {
                        ColorConversion::FromGammaChromaticities { gamma: g, chromaticities: c }
                    } else {
                        ColorConversion::Keep
                    },
                    _ => ColorConversion::Keep,
                }
            },
        }
    }
}

/// How an input's pixels are brought to sRGB (see [`spec_color_conversion`]).
/// Law: HDR input is never color converted. Whenever the metadata carries
/// a cICP chunk whose transfer function is PQ (16) or HLG (18), the decision
/// is to keep the pixels, whatever ICC profile, gAMA/cHRM or `--no-icc`.
pub proof fn lemma_hdr_is_never_converted(meta: Option<PreservedMetadata>, no_icc: bool)
    requires
        meta matches Some(m) && m.cicp matches Some(c) && (c.transfer_function == 16 || c.transfer_function
            == 18),
    ensures
        spec_color_conversion(meta, no_icc) == ColorConversion::Keep,
{
}

pub fn color_conversion(meta: Option<&PreservedMetadata>, no_icc: bool) -> (r: ColorConversion)
    ensures
        r == spec_color_conversion(meta_value(meta), no_icc),
{
    let m = match meta {
        Some(m) => m,
        None => {
            return ColorConversion::Keep;
        },
    };
    if no_icc {
        return ColorConversion::Keep;
    }
    if let Some(c) = m.cicp {
        if c.transfer_function == 16 || c.transfer_function == 18 {
            return ColorConversion::Keep;
        }
    }
    if m.icc_profile.is_some() {
        return ColorConversion::FromIccProfile;
    }
    match (m.source_gamma, m.source_chromaticities) {
        (Some(g), Some(c)) => {
            if m.srgb.is_none() && 0 < g && g <= 100000 {
                ColorConversion::FromGammaChromaticities { gamma: g, chromaticities: c }
            } else {
                ColorConversion::Keep
            }
        },
        _ => ColorConversion::Keep,
    }
}

/// Records that the pixels were converted to sRGB: the sRGB chunk (with the
/// perceptual intent) replaces gAMA, cHRM and iCCP.
pub fn mark_converted_to_srgb(meta: &mut PreservedMetadata)
    ensures
        *final(meta) == (PreservedMetadata {
            source_gamma: None,
            source_chromaticities: None,
            srgb: Some(0u8),
            icc_profile: None,
            ..*old(meta)
        }),
{
    meta.source_gamma = None;
    meta.source_chromaticities = None;
    meta.srgb = Some(0u8);
    meta.icc_profile = None;
}

} // verus!
