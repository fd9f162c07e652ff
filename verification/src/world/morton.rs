//! Locational codes: the Morton interleaving of a voxel coordinate below a
//! flag bit that marks the depth.
use crate::math::IVec3;
use crate::world::chunk::WorldChunk;
use vstd::arithmetic::power2::lemma_pow2_adds;
use vstd::arithmetic::power2::lemma_pow2_pos;
use vstd::arithmetic::power2::lemma_pow2_strictly_increases;
use vstd::arithmetic::power2::lemma_pow2_unfold;
use vstd::arithmetic::power2::pow2;
use vstd::bits::lemma_u64_shl_is_mul;
use vstd::prelude::*;
use vstd::std_specs::bits::axiom_u64_leading_zeros;
use vstd::std_specs::bits::u64_leading_zeros;

verus! {

/// The lowest `n` binary digits of `a` moved apart: digit `i` gets the weight `8^i`.
pub open spec fn spread3(a: nat, n: nat) -> nat
    decreases n,
{
    if n == 0 {
        0
    } else {
        a % 2 + 8 * spread3(a / 2, (n - 1) as nat)
    }
}

/// The lowest `n` octal digits of `m` reduced to their lowest bit: the bit of
/// octal digit `i` gets the weight `2^i`.
pub open spec fn compact3(m: nat, n: nat) -> nat
    decreases n,
{
    if n == 0 {
        0
    } else {
        m % 2 + 2 * compact3(m / 8, (n - 1) as nat)
    }
}

/// The Morton number of a coordinate: the bits of `x`, `y` and `z` interleaved,
/// `x` lowest, over `n` bits per axis.
pub open spec fn spec_morton(coord: IVec3, n: nat) -> nat {
    spread3(coord.x as nat, n) + 2 * spread3(coord.y as nat, n) + 4 * spread3(coord.z as nat, n)
}

/// The number of voxels along one axis of a chunk of the given degree.
pub open spec fn spec_chunk_size(degree: u8) -> int {
    pow2(degree as nat) as int
}

/// The locational code of a voxel: its Morton number below the flag bit `8^degree`.
pub open spec fn spec_coord2loc(degree: u8, coord: IVec3) -> nat {
    pow2(3 * degree as nat) + spec_morton(coord, degree as nat)
}

/// A locational code: a flag bit at a position that is a multiple of three,
/// and octal digits below it.
pub open spec fn valid_loc(loc: u64) -> bool {
    loc != 0 && u64_leading_zeros(loc) % 3 == 0
}

/// The depth of the node that a code names: the number of octal digits below its flag.
pub open spec fn spec_loc_degree(loc: u64) -> int {
    21 - (u64_leading_zeros(loc) + 1) / 3
}

/// The octal digits of a code, without its flag.
pub open spec fn spec_loc_body(loc: u64) -> nat {
    (loc - pow2(3 * spec_loc_degree(loc) as nat)) as nat
}

/// The lower corner, on the finest grid of a chunk of degree `degree`, of the
/// cube that the code names.
pub open spec fn spec_loc2coord(degree: u8, loc: u64) -> IVec3 {
    let d = spec_loc_degree(loc) as nat;
    let body = spec_loc_body(loc);
    let scale = pow2((degree - d) as nat);
    IVec3 {
        x: (compact3(body, d) * scale) as i32,
        y: (compact3(body / 2, d) * scale) as i32,
        z: (compact3(body / 4, d) * scale) as i32,
    }
}

/// The six masked shifts that spread 21 bits.
pub open spec fn shifts_apart(a: u64) -> u64 {
    let a0 = a & 0x0000_0000_001F_FFFF;
    let a1 = (a0 | a0 << 32) & 0x001F_0000_0000_FFFF;
    let a2 = (a1 | a1 << 16) & 0x001F_0000_FF00_00FF;
    let a3 = (a2 | a2 << 8) & 0x100F_00F0_0F00_F00F;
    let a4 = (a3 | a3 << 4) & 0x10C3_0C30_C30C_30C3;
    (a4 | a4 << 2) & 0x1249_2492_4924_9249
}

/// The six masked shifts that gather every third bit.
pub open spec fn shifts_together(m: u64) -> u64 {
    let m0 = m & 0x1249_2492_4924_9249;
    let m1 = (m0 ^ (m0 >> 2)) & 0x10C3_0C30_C30C_30C3;
    let m2 = (m1 ^ (m1 >> 4)) & 0x100F_00F0_0F00_F00F;
    let m3 = (m2 ^ (m2 >> 8)) & 0x001F_0000_FF00_00FF;
    let m4 = (m3 ^ (m3 >> 16)) & 0x001F_0000_0000_FFFF;
    (m4 ^ (m4 >> 32)) & 0x0000_0000_001F_FFFF
}

proof fn lemma_apart_step(a: u64, n: u64)
    by (bit_vector)
    requires
        1 <= n <= 21,
    ensures
        shifts_apart(a & (((1u64 << n) - 1) as u64)) == (a % 2) + 8 * shifts_apart(
            (a / 2) & (((1u64 << ((n - 1) as u64)) - 1) as u64),
        ),
{
}

proof fn lemma_together_step(m: u64, n: u64)
    by (bit_vector)
    requires
        1 <= n <= 21,
    ensures
        shifts_together(m & (((1u64 << ((3 * n) as u64)) - 1) as u64)) == (m % 2) + 2
            * shifts_together((m / 8) & (((1u64 << ((3 * (n - 1)) as u64)) - 1) as u64)),
{
}

proof fn lemma_shifts_mask_first(a: u64)
    by (bit_vector)
    ensures
        shifts_apart(a) == shifts_apart(a & (((1u64 << 21u64) - 1) as u64)),
        shifts_apart(a & (((1u64 << 0u64) - 1) as u64)) == 0,
        shifts_together(a) == shifts_together(a & (((1u64 << 63u64) - 1) as u64)),
        shifts_together(a & (((1u64 << 0u64) - 1) as u64)) == 0,
{
}

/// The masked shifts spread the lowest `n` bits exactly as `spread3` says.
proof fn lemma_apart_is_spread(a: u64, n: u64)
    requires
        n <= 21,
    ensures
        shifts_apart(a & (((1u64 << n) - 1) as u64)) == spread3(a as nat, n as nat),
    decreases n,
{
    if n == 0 {
        lemma_shifts_mask_first(a);
    } else {
        lemma_apart_step(a, n);
        lemma_apart_is_spread(a / 2, (n - 1) as u64);
    }
}

/// The masked shifts gather the lowest `n` third bits exactly as `compact3` says.
proof fn lemma_together_is_compact(m: u64, n: u64)
    requires
        n <= 21,
    ensures
        shifts_together(m & (((1u64 << ((3 * n) as u64)) - 1) as u64)) == compact3(
            m as nat,
            n as nat,
        ),
    decreases n,
{
    if n == 0 {
        lemma_shifts_mask_first(m);
    } else {
        lemma_together_step(m, n);
        lemma_together_is_compact(m / 8, (n - 1) as u64);
    }
}

proof fn lemma_only_third_bits(x: u64, y: u64, z: u64)
    by (bit_vector)
    requires
        x & 0x1249_2492_4924_9249 == x,
        y & 0x1249_2492_4924_9249 == y,
        z & 0x1249_2492_4924_9249 == z,
    ensures
        x | (y << 1) | (z << 2) == x + 2 * y + 4 * z,
{
}

proof fn lemma_flag_joins(r: u64, k: u64)
    by (bit_vector)
    requires
        k <= 63,
        r < (1u64 << k),
    ensures
        r | (1u64 << k) == r + (1u64 << k),
{
}

proof fn lemma_flag_leaves(loc: u64, k: u64)
    by (bit_vector)
    requires
        k <= 63,
        loc >= (1u64 << k),
        k < 63 ==> loc < (1u64 << ((k + 1) as u64)),
    ensures
        loc & (0x7FFF_FFFF_FFFF_FFFFu64 >> ((63 - k) as u64)) == loc - (1u64 << k),
{
}

proof fn lemma_halves(m: u64)
    by (bit_vector)
    ensures
        m >> 1 == m / 2,
        m >> 2 == m / 4,
{
}

proof fn lemma_scaled_below(c: nat, bound: nat, scale: nat)
    by (nonlinear_arith)
    requires
        c < bound,
        scale > 0,
    ensures
        c * scale < bound * scale,
{
}

/// `1 << k` is the `k`-th power of two.
pub proof fn lemma_shl_pow2(k: u64)
    requires
        k <= 63,
    ensures
        (1u64 << k) == pow2(k as nat),
{
    vstd::bits::lemma_u64_pow2_no_overflow(k as nat);
    lemma_u64_shl_is_mul(1, k);
}

/// Seven times a spread number stays below the next power of eight.
pub proof fn lemma_spread_bound(a: nat, n: nat)
    ensures
        7 * spread3(a, n) <= pow2(3 * n) - 1,
    decreases n,
{
    if n == 0 {
        assert(pow2(0) == 1) by {
            vstd::arithmetic::power2::lemma2_to64();
        }
    } else {
        lemma_spread_bound(a / 2, (n - 1) as nat);
        lemma_pow2_adds(3, (3 * (n - 1)) as nat);
        assert(pow2(3) == 8) by {
            vstd::arithmetic::power2::lemma2_to64();
        }
    }
}

/// A Morton number over `n` bits per axis is below `8^n`.
pub proof fn lemma_morton_bound(coord: IVec3, n: nat)
    ensures
        spec_morton(coord, n) < pow2(3 * n),
{
    lemma_spread_bound(coord.x as nat, n);
    lemma_spread_bound(coord.y as nat, n);
    lemma_spread_bound(coord.z as nat, n);
}

/// Bits beyond the size of a number add nothing to its spread.
pub proof fn lemma_spread_small(a: nat, n: nat, m: nat)
    requires
        a < pow2(n),
        n <= m,
    ensures
        spread3(a, m) == spread3(a, n),
    decreases m,
{
    if n == 0 {
        assert(pow2(0) == 1) by {
            vstd::arithmetic::power2::lemma2_to64();
        }
        if m > 0 {
            lemma_spread_small(0, 0, (m - 1) as nat);
        }
    } else {
        lemma_pow2_unfold(n);
        lemma_spread_small(a / 2, (n - 1) as nat, (m - 1) as nat);
    }
}

/// Octal digits beyond the size of a number add nothing to its compaction,
/// and a compaction over `n` digits is below `2^n`.
pub proof fn lemma_compact_small(b: nat, n: nat, m: nat)
    requires
        b < pow2(3 * n),
        n <= m,
    ensures
        compact3(b, m) == compact3(b, n),
        compact3(b, n) < pow2(n),
    decreases m,
{
    if n == 0 {
        assert(pow2(0) == 1) by {
            vstd::arithmetic::power2::lemma2_to64();
        }
        if m > 0 {
            lemma_compact_small(0, 0, (m - 1) as nat);
        }
    } else {
        lemma_pow2_adds(3, (3 * (n - 1)) as nat);
        assert(pow2(3) == 8) by {
            vstd::arithmetic::power2::lemma2_to64();
        }
        lemma_pow2_unfold(n);
        lemma_compact_small(b / 8, (n - 1) as nat, (m - 1) as nat);
    }
}

/// The lowest octal digit `a + 2b + 4c` of a number and the digits above it.
proof fn lemma_octal_digit(a: nat, b: nat, c: nat, rest: nat)
    requires
        a <= 1,
        b <= 1,
        c <= 1,
    ensures
        ({
            let m = a + 2 * b + 4 * c + 8 * rest;
            &&& m % 2 == a
            &&& (m / 2) % 2 == b
            &&& (m / 4) % 2 == c
            &&& m / 8 == rest
            &&& (m / 2) / 8 == rest / 2
            &&& (m / 4) / 8 == rest / 4
        }),
{
    let m = a + 2 * b + 4 * c + 8 * rest;
    let q1 = b + 2 * c + 4 * rest;
    let q2 = c + 2 * rest;
    assert(m == a + 2 * q1);
    lemma_digit_in_front(a, q1);
    assert(q1 == b + 2 * q2);
    lemma_digit_in_front(b, q2);
    lemma_digit_in_front(c, rest);
    assert(m / 2 == q1);
    assert(q1 / 2 == q2);
    assert(q2 / 2 == rest);
    lemma_halved_again(m);
    lemma_halved_again(q1);
    lemma_halved_again(q2);
}

/// Dividing by four and by eight is halving two and three times.
proof fn lemma_halved_again(b: nat)
    ensures
        b / 4 == (b / 2) / 2,
        b / 8 == ((b / 2) / 2) / 2,
        (b / 2) / 4 == b / 8,
{
}

/// Compaction undoes the interleaving, axis by axis.
pub proof fn lemma_compact_morton(x: nat, y: nat, z: nat, n: nat)
    requires
        x < pow2(n),
        y < pow2(n),
        z < pow2(n),
    ensures
        ({
            let m = spread3(x, n) + 2 * spread3(y, n) + 4 * spread3(z, n);
            compact3(m, n) == x && compact3(m / 2, n) == y && compact3(m / 4, n) == z
        }),
    decreases n,
{
    if n == 0 {
        assert(pow2(0) == 1) by {
            vstd::arithmetic::power2::lemma2_to64();
        }
    } else {
        lemma_pow2_unfold(n);
        lemma_compact_morton(x / 2, y / 2, z / 2, (n - 1) as nat);
        let sx = spread3(x / 2, (n - 1) as nat);
        let sy = spread3(y / 2, (n - 1) as nat);
        let sz = spread3(z / 2, (n - 1) as nat);
        let rest = sx + 2 * sy + 4 * sz;
        let m = spread3(x, n) + 2 * spread3(y, n) + 4 * spread3(z, n);
        assert(spread3(x, n) == x % 2 + 8 * sx);
        assert(spread3(y, n) == y % 2 + 8 * sy);
        assert(spread3(z, n) == z % 2 + 8 * sz);
        assert(m == (x % 2) + 2 * (y % 2) + 4 * (z % 2) + 8 * rest);
        lemma_octal_digit(x % 2, y % 2, z % 2, rest);
        assert(compact3(m, n) == m % 2 + 2 * compact3(m / 8, (n - 1) as nat));
        assert(compact3(m / 2, n) == (m / 2) % 2 + 2 * compact3((m / 2) / 8, (n - 1) as nat));
        assert(compact3(m / 4, n) == (m / 4) % 2 + 2 * compact3((m / 4) / 8, (n - 1) as nat));
    }
}

/// A number split into its lowest octal digit, bit by bit, and the rest.
proof fn lemma_octal_split(b: nat)
    ensures
        b == b % 2 + 2 * ((b / 2) % 2) + 4 * ((b / 4) % 2) + 8 * (b / 8),
        (b / 2) / 8 == (b / 8) / 2,
        (b / 4) / 8 == (b / 8) / 4,
{
    let q1 = b / 2;
    let q2 = q1 / 2;
    let q3 = q2 / 2;
    assert(b == 2 * q1 + b % 2);
    assert(q1 == 2 * q2 + q1 % 2);
    assert(q2 == 2 * q3 + q2 % 2);
    assert(q2 == b / 4);
    assert(q3 == b / 8);
    assert(q1 / 8 == b / 16);
    assert(q3 / 2 == b / 16);
    assert(q2 / 8 == b / 32);
    assert(q3 / 4 == b / 32);
}

/// A binary digit put in front of a number: its parity and its half.
proof fn lemma_digit_in_front(bit: nat, rest: nat)
    requires
        bit <= 1,
    ensures
        (bit + 2 * rest) % 2 == bit,
        (bit + 2 * rest) / 2 == rest,
{
}

/// Interleaving undoes the compaction: a number below `8^n` is the Morton
/// number of its three compactions.
pub proof fn lemma_morton_compact(b: nat, n: nat)
    requires
        b < pow2(3 * n),
    ensures
        spread3(compact3(b, n), n) + 2 * spread3(compact3(b / 2, n), n) + 4 * spread3(
            compact3(b / 4, n),
            n,
        ) == b,
    decreases n,
{
    if n == 0 {
        assert(pow2(0) == 1) by {
            vstd::arithmetic::power2::lemma2_to64();
        }
    } else {
        lemma_pow2_adds(3, (3 * (n - 1)) as nat);
        assert(pow2(3) == 8) by {
            vstd::arithmetic::power2::lemma2_to64();
        }
        let p = (n - 1) as nat;
        let r = b / 8;
        lemma_morton_compact(r, p);
        lemma_octal_split(b);
        let rx = compact3(r, p);
        let ry = compact3(r / 2, p);
        let rz = compact3(r / 4, p);
        let cx = compact3(b, n);
        let cy = compact3(b / 2, n);
        let cz = compact3(b / 4, n);
        assert(cx == b % 2 + 2 * rx);
        assert(cy == (b / 2) % 2 + 2 * ry);
        assert(cz == (b / 4) % 2 + 2 * rz);
        lemma_digit_in_front(b % 2, rx);
        lemma_digit_in_front((b / 2) % 2, ry);
        lemma_digit_in_front((b / 4) % 2, rz);
        assert(spread3(cx, n) == b % 2 + 8 * spread3(rx, p));
        assert(spread3(cy, n) == (b / 2) % 2 + 8 * spread3(ry, p));
        assert(spread3(cz, n) == (b / 4) % 2 + 8 * spread3(rz, p));
    }
}

/// Scaling a number by `2^k` scales its spread by `8^k`.
pub proof fn lemma_spread_scaled(a: nat, n: nat, k: nat)
    ensures
        spread3(a * pow2(k), n + k) == spread3(a, n) * pow2(3 * k),
    decreases k,
{
    if k == 0 {
        assert(pow2(0) == 1) by {
            vstd::arithmetic::power2::lemma2_to64();
        }
        assert(a * pow2(0) == a) by (nonlinear_arith)
            requires
                pow2(0) == 1,
        ;
        assert(spread3(a, n) * pow2(0) == spread3(a, n)) by (nonlinear_arith)
            requires
                pow2(0) == 1,
        ;
    } else {
        lemma_pow2_unfold(k);
        lemma_pow2_adds(3, (3 * (k - 1)) as nat);
        assert(pow2(3) == 8) by {
            vstd::arithmetic::power2::lemma2_to64();
        }
        let half = a * pow2((k - 1) as nat);
        assert(a * pow2(k) == 2 * half) by (nonlinear_arith)
            requires
                pow2(k) == 2 * pow2((k - 1) as nat),
                half == a * pow2((k - 1) as nat),
        ;
        lemma_spread_scaled(a, n, (k - 1) as nat);
        assert(spread3(2 * half, n + k) == 8 * spread3(half, (n + k - 1) as nat));
        assert(8 * (spread3(a, n) * pow2((3 * (k - 1)) as nat)) == spread3(a, n) * pow2(3 * k))
            by (nonlinear_arith)
            requires
                pow2(3 * k) == 8 * pow2((3 * (k - 1)) as nat),
        ;
    }
}

/// A number between `2^k` and `2^(k+1)` has `63 - k` leading zeros.
pub proof fn lemma_leading_zeros_of_range(i: u64, k: nat)
    requires
        k <= 63,
        pow2(k) <= i,
        k < 63 ==> i < pow2(k + 1),
    ensures
        u64_leading_zeros(i) == 63 - k,
    decreases k,
{
    reveal(u64_leading_zeros);
    assert(pow2(0) == 1) by {
        vstd::arithmetic::power2::lemma2_to64();
    }
    lemma_pow2_pos(k);
    if k == 0 {
        assert(i == 1) by {
            lemma_pow2_unfold(1);
        }
        assert(u64_leading_zeros(0) == 64);
        assert(i / 2 == 0);
    } else {
        lemma_pow2_unfold(k);
        if k < 63 {
            lemma_pow2_unfold(k + 1);
        } else {
            vstd::arithmetic::power2::lemma2_to64_rest();
        }
        lemma_leading_zeros_of_range(i / 2, (k - 1) as nat);
    }
}

/// A number other than zero lies between the powers of two that its leading zeros name.
pub proof fn lemma_leading_zeros_bounds(i: u64)
    requires
        i != 0,
    ensures
        0 <= u64_leading_zeros(i) <= 63,
        pow2((63 - u64_leading_zeros(i)) as nat) <= i,
        u64_leading_zeros(i) > 0 ==> i < pow2((64 - u64_leading_zeros(i)) as nat),
    decreases i,
{
    reveal(u64_leading_zeros);
    axiom_u64_leading_zeros(i);
    axiom_u64_leading_zeros(i / 2);
    assert(pow2(0) == 1) by {
        vstd::arithmetic::power2::lemma2_to64();
    }
    if i == 1 {
        assert(u64_leading_zeros(0) == 64);
        lemma_pow2_unfold(1);
    } else {
        lemma_leading_zeros_bounds(i / 2);
        let z = u64_leading_zeros(i);
        lemma_pow2_unfold((63 - z) as nat);
        if z > 0 {
            lemma_pow2_unfold((64 - z) as nat);
        }
    }
}

/// What a valid code is made of: a flag `8^d` with `d` its degree, and a body below the flag.
pub proof fn lemma_valid_loc(loc: u64)
    requires
        valid_loc(loc),
    ensures
        0 <= spec_loc_degree(loc) <= 21,
        3 * spec_loc_degree(loc) == 63 - u64_leading_zeros(loc),
        loc == pow2((3 * spec_loc_degree(loc)) as nat) + spec_loc_body(loc),
        spec_loc_body(loc) < pow2((3 * spec_loc_degree(loc)) as nat),
{
    lemma_leading_zeros_bounds(loc);
    let z = u64_leading_zeros(loc);
    let d = spec_loc_degree(loc);
    assert(3 * d == 63 - z);
    if z > 0 {
        lemma_pow2_unfold((64 - z) as nat);
    } else {
        vstd::arithmetic::power2::lemma2_to64_rest();
    }
}

/// The code of a voxel of a chunk of degree `degree` is valid and has that degree.
pub proof fn lemma_coord2loc_valid(degree: u8, coord: IVec3)
    requires
        degree <= 21,
    ensures
        spec_coord2loc(degree, coord) <= u64::MAX,
        valid_loc(spec_coord2loc(degree, coord) as u64),
        spec_loc_degree(spec_coord2loc(degree, coord) as u64) == degree,
        spec_loc_body(spec_coord2loc(degree, coord) as u64) == spec_morton(coord, degree as nat),
{
    let k = (3 * degree) as nat;
    lemma_morton_bound(coord, degree as nat);
    lemma_pow2_pos(k);
    if k < 63 {
        lemma_pow2_unfold(k + 1);
        lemma_pow2_strictly_increases(k + 1, 64);
    }
    vstd::arithmetic::power2::lemma2_to64_rest();
    let loc = spec_coord2loc(degree, coord);
    assert(loc <= u64::MAX);
    lemma_leading_zeros_of_range(loc as u64, k);
}

/// The root code `1` is valid and has degree zero.
pub proof fn lemma_root_loc()
    ensures
        valid_loc(1),
        spec_loc_degree(1) == 0,
        spec_loc_body(1) == 0,
{
    vstd::arithmetic::power2::lemma2_to64();
    lemma_leading_zeros_of_range(1, 0);
}

/// The codes of the children of a valid code are valid and one level deeper.
pub proof fn lemma_child_loc(loc: u64, c: int)
    requires
        valid_loc(loc),
        spec_loc_degree(loc) < 21,
        0 <= c < 8,
    ensures
        8 * loc + c <= u64::MAX,
        valid_loc((8 * loc + c) as u64),
        spec_loc_degree((8 * loc + c) as u64) == spec_loc_degree(loc) + 1,
        ((8 * loc + c) as u64) / 8 == loc,
{
    lemma_valid_loc(loc);
    let d = spec_loc_degree(loc) as nat;
    lemma_pow2_adds(3, 3 * d);
    lemma_pow2_unfold(3 * d + 4);
    vstd::arithmetic::power2::lemma2_to64();
    vstd::arithmetic::power2::lemma2_to64_rest();
    if 3 * d + 4 < 64 {
        lemma_pow2_strictly_increases(3 * d + 4, 64);
    }
    lemma_leading_zeros_of_range((8 * loc + c) as u64, 3 * d + 3);
}

/// The parent of a valid code other than the root is valid and one level higher.
pub proof fn lemma_parent_loc(loc: u64)
    requires
        valid_loc(loc),
        spec_loc_degree(loc) >= 1,
    ensures
        valid_loc(loc / 8),
        spec_loc_degree(loc / 8) == spec_loc_degree(loc) - 1,
{
    lemma_valid_loc(loc);
    let d = spec_loc_degree(loc) as nat;
    lemma_pow2_adds(3, (3 * (d - 1)) as nat);
    lemma_pow2_unfold((3 * (d - 1) + 1) as nat);
    vstd::arithmetic::power2::lemma2_to64();
    lemma_pow2_pos((3 * (d - 1)) as nat);
    lemma_leading_zeros_of_range(loc / 8, (3 * (d - 1)) as nat);
}

/// The only valid code of degree zero is the root.
pub proof fn lemma_degree_zero(loc: u64)
    requires
        valid_loc(loc),
        spec_loc_degree(loc) == 0,
    ensures
        loc == 1,
{
    lemma_valid_loc(loc);
    vstd::arithmetic::power2::lemma2_to64();
}

/// A valid code that is at least eight times another names a deeper node.
pub proof fn lemma_deeper_loc(l: u64, loc: u64)
    requires
        valid_loc(l),
        valid_loc(loc),
        l >= 8 * loc,
    ensures
        spec_loc_degree(l) > spec_loc_degree(loc),
{
    lemma_valid_loc(l);
    lemma_valid_loc(loc);
    let e = spec_loc_degree(l) as nat;
    let d = spec_loc_degree(loc) as nat;
    lemma_pow2_adds(3, 3 * d);
    vstd::arithmetic::power2::lemma2_to64();
    if e <= d {
        if e < d {
            lemma_pow2_strictly_increases(3 * e, 3 * d);
        }
    }
}

impl WorldChunk {
    /// Spreads the lowest 21 bits of `a` to every third bit.
    pub fn splitby3(a: u32) -> (r: u64)
        ensures
            r == spread3(a as nat, 21),
            r & 0x1249_2492_4924_9249 == r,
    {
        proof {
            lemma_shifts_mask_first(a as u64);
            lemma_apart_is_spread(a as u64, 21);
        }
        let a0: u64 = (a as u64) & 0x0000_0000_001F_FFFF;
        let a1: u64 = (a0 | a0 << 32) & 0x001F_0000_0000_FFFF;
        let a2: u64 = (a1 | a1 << 16) & 0x001F_0000_FF00_00FF;
        let a3: u64 = (a2 | a2 << 8) & 0x100F_00F0_0F00_F00F;
        let a4: u64 = (a3 | a3 << 4) & 0x10C3_0C30_C30C_30C3;
        let a5: u64 = a4 | a4 << 2;
        assert((a5 & 0x1249_2492_4924_9249) & 0x1249_2492_4924_9249 == a5 & 0x1249_2492_4924_9249)
            by (bit_vector);
        a5 & 0x1249_2492_4924_9249
    }

    /// Gathers every third bit of `m`, starting with bit 0, into the lowest 21 bits.
    pub fn thirdbits(m: u64) -> (r: u64)
        ensures
            r == compact3(m as nat, 21),
    {
        proof {
            lemma_shifts_mask_first(m);
            lemma_together_is_compact(m, 21);
        }
        let m0: u64 = m & 0x1249_2492_4924_9249;
        let m1: u64 = (m0 ^ (m0 >> 2)) & 0x10C3_0C30_C30C_30C3;
        let m2: u64 = (m1 ^ (m1 >> 4)) & 0x100F_00F0_0F00_F00F;
        let m3: u64 = (m2 ^ (m2 >> 8)) & 0x001F_0000_FF00_00FF;
        let m4: u64 = (m3 ^ (m3 >> 16)) & 0x001F_0000_0000_FFFF;
        (m4 ^ (m4 >> 32)) & 0x0000_0000_001F_FFFF
    }

    /// The locational code of the voxel `coord` of this chunk.
    pub fn coord2loc(&self, coord: IVec3) -> (loc: u64)
        requires
            self.degree <= 21,
            coord.within(0, spec_chunk_size(self.degree)),
        ensures
            loc == spec_coord2loc(self.degree, coord),
    {
        let ghost d = self.degree as nat;
        let x = Self::splitby3(coord.x as u32);
        let y = Self::splitby3(coord.y as u32);
        let z = Self::splitby3(coord.z as u32);
        proof {
            lemma_spread_small(coord.x as nat, d, 21);
            lemma_spread_small(coord.y as nat, d, 21);
            lemma_spread_small(coord.z as nat, d, 21);
            lemma_only_third_bits(x, y, z);
            lemma_morton_bound(coord, d);
            lemma_pow2_strictly_increases(3 * d, 64);
            vstd::arithmetic::power2::lemma2_to64_rest();
        }
        let r: u64 = x | (y << 1) | (z << 2);
        assert(r == spec_morton(coord, d));
        // the flag bit stands above the highest bit of `r`, at a multiple of three
        let zeros: u8 = r.leading_zeros() as u8;
        proof {
            axiom_u64_leading_zeros(r);
            if r != 0 {
                lemma_leading_zeros_bounds(r);
                if 63 - zeros >= 3 * d {
                    if 63 - zeros > 3 * d {
                        lemma_pow2_strictly_increases(3 * d, (63 - zeros) as nat);
                    }
                }
            }
        }
        let above: u8 = 63 + (zeros % 3) - zeros;
        let whole: u8 = self.degree * 3;
        let m: u8 = if whole >= above {
            whole
        } else {
            above
        };
        assert(m == 3 * d);
        proof {
            lemma_shl_pow2(m as u64);
            lemma_flag_joins(r, m as u64);
        }
        r | (1u64 << m)
    }

    /// The lower corner, on the finest grid of this chunk, of the cube that `loc` names.
    pub fn loc2coord(&self, loc: u64) -> (coord: IVec3)
        requires
            self.degree <= 21,
            valid_loc(loc),
            spec_loc_degree(loc) <= self.degree,
        ensures
            coord == spec_loc2coord(self.degree, loc),
            coord.within(0, spec_chunk_size(self.degree)),
    {
        let zeros: u32 = loc.leading_zeros();
        proof {
            lemma_valid_loc(loc);
        }
        let degree: u8 = (21 - (zeros + 1) / 3) as u8;
        let rel_degree: u8 = self.degree - degree;
        let ghost d = degree as nat;
        let ghost k = (3 * d) as u64;
        let degree_mask: u64 = 0x7FFF_FFFF_FFFF_FFFFu64 >> zeros;
        let body: u64 = loc & degree_mask;
        proof {
            lemma_shl_pow2(k);
            if k < 63 {
                lemma_shl_pow2((k + 1) as u64);
                lemma_pow2_unfold((k + 1) as nat);
            }
            lemma_flag_leaves(loc, k);
            assert(body == spec_loc_body(loc));
            lemma_halves(body);
            lemma_pow2_pos((3 * d) as nat);
            lemma_pow2_pos(rel_degree as nat);
            lemma_compact_small(body as nat, d, 21);
            lemma_compact_small((body / 2) as nat, d, 21);
            lemma_compact_small((body / 4) as nat, d, 21);
            lemma_pow2_adds(d, rel_degree as nat);
            lemma_pow2_strictly_increases(self.degree as nat, 22);
            vstd::arithmetic::power2::lemma2_to64();
        }
        let cx: u64 = Self::thirdbits(body);
        let cy: u64 = Self::thirdbits(body >> 1);
        let cz: u64 = Self::thirdbits(body >> 2);
        proof {
            let scale = pow2(rel_degree as nat);
            let size = pow2(self.degree as nat);
            lemma_scaled_below(cx as nat, pow2(d), scale);
            lemma_scaled_below(cy as nat, pow2(d), scale);
            lemma_scaled_below(cz as nat, pow2(d), scale);
            lemma_u64_shl_is_mul(cx, rel_degree as u64);
            lemma_u64_shl_is_mul(cy, rel_degree as u64);
            lemma_u64_shl_is_mul(cz, rel_degree as u64);
        }
        let x: u64 = cx << rel_degree;
        let y: u64 = cy << rel_degree;
        let z: u64 = cz << rel_degree;
        IVec3 { x: x as i32, y: y as i32, z: z as i32 }
    }
}

/// Decoding the code of a voxel gives the voxel back.
pub proof fn lemma_morton_round_trip(degree: u8, coord: IVec3)
    requires
        degree <= 21,
        coord.within(0, spec_chunk_size(degree)),
    ensures
        spec_coord2loc(degree, coord) <= u64::MAX,
        spec_loc2coord(degree, spec_coord2loc(degree, coord) as u64) == coord,
{
    lemma_coord2loc_valid(degree, coord);
    lemma_compact_morton(coord.x as nat, coord.y as nat, coord.z as nat, degree as nat);
    assert(pow2(0) == 1) by {
        vstd::arithmetic::power2::lemma2_to64();
    }
    let m = spec_morton(coord, degree as nat);
    assert(compact3(m, degree as nat) * 1 == coord.x);
    assert(compact3(m / 2, degree as nat) * 1 == coord.y);
    assert(compact3(m / 4, degree as nat) * 1 == coord.z);
}

/// Encoding the corner of the cube that a code names gives a code of the full
/// degree whose prefix is that code: the code moved up by three bits for each
/// level between its degree and the full degree.
pub proof fn lemma_locational_prefix(degree: u8, loc: u64)
    requires
        degree <= 21,
        valid_loc(loc),
        spec_loc_degree(loc) <= degree,
    ensures
        spec_loc2coord(degree, loc).within(0, spec_chunk_size(degree)),
        spec_coord2loc(degree, spec_loc2coord(degree, loc)) == loc * pow2(
            (3 * (degree - spec_loc_degree(loc))) as nat,
        ),
        spec_loc_degree(spec_coord2loc(degree, spec_loc2coord(degree, loc)) as u64) == degree,
{
    lemma_valid_loc(loc);
    let d = spec_loc_degree(loc) as nat;
    let k = (degree - d) as nat;
    let body = spec_loc_body(loc);
    let scale = pow2(k);
    let cx = compact3(body, d);
    let cy = compact3(body / 2, d);
    let cz = compact3(body / 4, d);
    lemma_pow2_pos((3 * d) as nat);
    lemma_pow2_pos(k);
    lemma_compact_small(body, d, d);
    lemma_compact_small(body / 2, d, d);
    lemma_compact_small(body / 4, d, d);
    lemma_pow2_adds(d, k);
    lemma_pow2_strictly_increases(degree as nat, 22);
    vstd::arithmetic::power2::lemma2_to64();
    let size = pow2(degree as nat);
    lemma_scaled_below(cx, pow2(d), scale);
    lemma_scaled_below(cy, pow2(d), scale);
    lemma_scaled_below(cz, pow2(d), scale);
    let coord = spec_loc2coord(degree, loc);
    assert(coord.x == cx * scale && coord.y == cy * scale && coord.z == cz * scale);
    lemma_spread_scaled(cx, d, k);
    lemma_spread_scaled(cy, d, k);
    lemma_spread_scaled(cz, d, k);
    lemma_morton_compact(body, d);
    let up = pow2(3 * k);
    lemma_pow2_adds(3 * d, 3 * k);
    assert(spec_morton(coord, degree as nat) == body * up) by (nonlinear_arith)
        requires
            spec_morton(coord, degree as nat) == spread3(cx, d) * up + 2 * (spread3(cy, d) * up)
                + 4 * (spread3(cz, d) * up),
            spread3(cx, d) + 2 * spread3(cy, d) + 4 * spread3(cz, d) == body,
    ;
    assert(spec_coord2loc(degree, coord) == loc * up) by (nonlinear_arith)
        requires
            spec_coord2loc(degree, coord) == pow2((3 * d + 3 * k) as nat) + body * up,
            pow2((3 * d + 3 * k) as nat) == pow2(3 * d) * up,
            loc == pow2(3 * d) + body,
    ;
    lemma_coord2loc_valid(degree, coord);
}

} // verus!
