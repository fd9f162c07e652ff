//! Integer helpers and the chunk coordinate algebra.
use crate::hasher::SeaHashKey;
use vstd::endian::endianness;
use vstd::endian::Endian;
use vstd::prelude::*;
use vstd::arithmetic::div_mod::lemma_fundamental_div_mod;
use vstd::arithmetic::div_mod::lemma_div_pos_is_pos;
use vstd::arithmetic::div_mod::lemma_mod_bound;
use vstd::arithmetic::mul::lemma_mul_inequality;

verus! {

/// An integer vector: a chunk coordinate, a voxel coordinate or a direction.
#[derive(Clone, Copy, Debug, PartialEq, Eq, Structural)]
pub struct IVec3 {
    pub x: i32,
    pub y: i32,
    pub z: i32,
}

pub open spec fn fits_i32(v: int) -> bool {
    i32::MIN <= v <= i32::MAX
}

pub fn ivec3(x: i32, y: i32, z: i32) -> (v: IVec3)
    ensures
        v == (IVec3 { x, y, z }),
{
    IVec3 { x, y, z }
}

impl IVec3 {
    /// Component-wise sum, as a vector of mathematical integers would give it.
    pub open spec fn spec_plus(self, o: IVec3) -> IVec3 {
        IVec3 { x: (self.x + o.x) as i32, y: (self.y + o.y) as i32, z: (self.z + o.z) as i32 }
    }

    pub open spec fn spec_minus(self, o: IVec3) -> IVec3 {
        IVec3 { x: (self.x - o.x) as i32, y: (self.y - o.y) as i32, z: (self.z - o.z) as i32 }
    }

    pub open spec fn spec_scaled(self, k: i32) -> IVec3 {
        IVec3 { x: (self.x * k) as i32, y: (self.y * k) as i32, z: (self.z * k) as i32 }
    }

    pub open spec fn can_plus(self, o: IVec3) -> bool {
        fits_i32(self.x + o.x) && fits_i32(self.y + o.y) && fits_i32(self.z + o.z)
    }

    pub open spec fn can_minus(self, o: IVec3) -> bool {
        fits_i32(self.x - o.x) && fits_i32(self.y - o.y) && fits_i32(self.z - o.z)
    }

    pub open spec fn can_scale(self, k: i32) -> bool {
        fits_i32(self.x * k) && fits_i32(self.y * k) && fits_i32(self.z * k)
    }

    /// Every component lies in `[lo, hi)`.
    pub open spec fn within(self, lo: int, hi: int) -> bool {
        lo <= self.x < hi && lo <= self.y < hi && lo <= self.z < hi
    }

    pub fn plus(self, o: IVec3) -> (r: IVec3)
        requires
            self.can_plus(o),
        ensures
            r == self.spec_plus(o),
            r.x == self.x + o.x,
            r.y == self.y + o.y,
            r.z == self.z + o.z,
    {
        IVec3 { x: self.x + o.x, y: self.y + o.y, z: self.z + o.z }
    }

    pub fn minus(self, o: IVec3) -> (r: IVec3)
        requires
            self.can_minus(o),
        ensures
            r == self.spec_minus(o),
            r.x == self.x - o.x,
            r.y == self.y - o.y,
            r.z == self.z - o.z,
    {
        IVec3 { x: self.x - o.x, y: self.y - o.y, z: self.z - o.z }
    }

    pub fn scaled(self, k: i32) -> (r: IVec3)
        requires
            self.can_scale(k),
        ensures
            r == self.spec_scaled(k),
            r.x == self.x * k,
            r.y == self.y * k,
            r.z == self.z * k,
    {
        IVec3 { x: self.x * k, y: self.y * k, z: self.z * k }
    }
}

/// The remainder of `n` by a positive modulus `m`, in `[0, m)`.
pub fn positive_modulo(n: i32, m: i32) -> (r: i32)
    requires
        m > 0,
    ensures
        r == n % m,
        0 <= r < m,
{
    proof {
        lemma_mod_bound(n as int, m as int);
    }
    match n.checked_rem_euclid(m) {
        Some(r) => r,
        None => 0,
    }
}

/// The quotient rounded towards minus infinity.
pub open spec fn spec_floor_div(x: int, y: int) -> int {
    if y > 0 {
        x / y
    } else {
        (-x) / (-y)
    }
}

proof fn lemma_floor_div_bound(x: int, y: int)
    requires
        y > 0,
    ensures
        x >= 0 ==> 0 <= x / y <= x,
        x < 0 ==> x <= x / y < 0,
{
    lemma_fundamental_div_mod(x, y);
    lemma_mod_bound(x, y);
    let q = x / y;
    let r = x % y;
    assert(x == y * q + r);
    if x >= 0 {
        if q < 0 {
            assert(y * q <= -y) by (nonlinear_arith)
                requires
                    y > 0,
                    q <= -1,
            ;
        }
        if q > x {
            assert(y * q >= q) by (nonlinear_arith)
                requires
                    y >= 1,
                    q >= 0,
            ;
        }
    } else {
        if q >= 0 {
            assert(y * q >= 0) by (nonlinear_arith)
                requires
                    y > 0,
                    q >= 0,
            ;
        }
        if q < x {
            assert(y * (q + 1) <= q + 1) by (nonlinear_arith)
                requires
                    y >= 1,
                    q + 1 <= 0,
            ;
            assert(y * (q + 1) == y * q + y) by (nonlinear_arith);
        }
    }
}

/// Division of `x` by `y` rounded towards minus infinity.
pub fn floor_div(x: i32, y: i32) -> (q: i32)
    requires
        y != 0,
        !(x == i32::MIN && y == -1),
    ensures
        q == spec_floor_div(x as int, y as int),
{
    let a: i64 = x as i64;
    let b: i64 = y as i64;
    let (n, d): (i64, i64) = if b > 0 { (a, b) } else { (-a, -b) };
    proof {
        lemma_floor_div_bound(n as int, d as int);
        if d == 1 {
            assert(n / 1 == n);
        }
    }
    let q: i64 = match n.checked_div_euclid(d) {
        Some(q) => q,
        None => 0,
    };
    assert(q == spec_floor_div(x as int, y as int));
    assert(i32::MIN <= q <= i32::MAX) by {
        lemma_floor_div_bound(n as int, d as int);
        if n > i32::MAX {
            // x == i32::MIN with a negative divisor other than -1
            assert(d >= 2);
            lemma_fundamental_div_mod(n as int, d as int);
            lemma_mod_bound(n as int, d as int);
            assert(d * (n / d) <= n);
            if n / d > i32::MAX {
                assert(d * (n / d) >= 2 * (n / d)) by (nonlinear_arith)
                    requires
                        d >= 2,
                        n / d >= 0,
                ;
            }
        }
    }
    q as i32
}

/// Sign of a signed sample: `1` above the iso-surface, `-1` on or below it.
pub open spec fn spec_isign(a: int) -> int {
    if a > 0 {
        1
    } else {
        -1
    }
}

pub fn isign(a: i32) -> (s: i32)
    ensures
        s == spec_isign(a as int),
{
    if a > 0 {
        1
    } else {
        -1
    }
}

/// Two signed samples lie on different sides of the iso-surface.
pub open spec fn spec_is_intersection(a: int, b: int) -> bool {
    spec_isign(a) != spec_isign(b)
}

pub fn is_intersection(a: i32, b: i32) -> (r: bool)
    ensures
        r == spec_is_intersection(a as int, b as int),
        r == ((a > 0) != (b > 0)),
{
    isign(a) != isign(b)
}

/// The value of `x` read as an unsigned 32-bit number (two's complement).
pub open spec fn unsigned_of(x: i32) -> int {
    if x >= 0 {
        x as int
    } else {
        x + 0x1_0000_0000
    }
}

/// The four bytes of `x`, least significant first.
pub open spec fn le_bytes(x: i32) -> Seq<u8> {
    let u = unsigned_of(x);
    seq![
        (u % 256) as u8,
        (u / 0x100 % 256) as u8,
        (u / 0x1_0000 % 256) as u8,
        (u / 0x100_0000 % 256) as u8,
    ]
}

/// The four bytes of `x` in the byte order of the machine that runs the program.
pub open spec fn ne_bytes(x: i32) -> Seq<u8> {
    match endianness() {
        Endian::Little => le_bytes(x),
        Endian::Big => le_bytes(x).reverse(),
    }
}

/// `i32::to_ne_bytes`: the two's complement bytes of `x` in the machine's byte order.
#[verifier::external_body]
fn i32_to_ne_bytes(x: i32) -> (b: [u8; 4])
    ensures
        b@ == ne_bytes(x),
{
    x.to_ne_bytes()
}

/// `i32::from_ne_bytes`: the number whose bytes in the machine's byte order are `b`.
#[verifier::external_body]
fn i32_from_ne_bytes(b: [u8; 4]) -> (x: i32)
    ensures
        ne_bytes(x) == b@,
{
    i32::from_ne_bytes(b)
}

/// A number below `2^32` is the sum of its four base-256 digits.
proof fn lemma_four_digits(u: int)
    requires
        0 <= u < 0x1_0000_0000,
    ensures
        u == u % 256 + 0x100 * (u / 0x100 % 256) + 0x1_0000 * (u / 0x1_0000 % 256) + 0x100_0000 * (u
            / 0x100_0000 % 256),
{
    let q1 = u / 0x100;
    let q2 = q1 / 0x100;
    let q3 = q2 / 0x100;
    assert(u == 0x100 * q1 + u % 256);
    assert(q1 == 0x100 * q2 + q1 % 256);
    assert(q2 == 0x100 * q3 + q2 % 256);
    assert(q2 == u / 0x1_0000);
    assert(q3 == u / 0x100_0000);
    assert(q3 < 256);
}

/// Equal byte strings come from equal numbers.
pub proof fn lemma_ne_bytes_injective(a: i32, b: i32)
    requires
        ne_bytes(a) == ne_bytes(b),
    ensures
        a == b,
{
    let s = le_bytes(a);
    let t = le_bytes(b);
    assert(s =~= t) by {
        match endianness() {
            Endian::Little => {},
            Endian::Big => {
                assert(s.reverse().reverse() =~= s);
                assert(t.reverse().reverse() =~= t);
            },
        }
    }
    let u = unsigned_of(a);
    let v = unsigned_of(b);
    assert(s[0] == t[0] && s[1] == t[1] && s[2] == t[2] && s[3] == t[3]);
    lemma_four_digits(u);
    lemma_four_digits(v);
}

/// The key of a coordinate: the bytes of `x`, then of `y`, then of `z`.
pub open spec fn spec_key_bytes(coord: IVec3) -> Seq<u8> {
    ne_bytes(coord.x) + ne_bytes(coord.y) + ne_bytes(coord.z)
}

/// Distinct coordinates have distinct keys.
pub proof fn lemma_coord2key_injective(a: IVec3, b: IVec3)
    requires
        spec_key_bytes(a) == spec_key_bytes(b),
    ensures
        a == b,
{
    let ka = spec_key_bytes(a);
    let kb = spec_key_bytes(b);
    assert(ne_bytes(a.x).len() == 4 && ne_bytes(a.y).len() == 4 && ne_bytes(a.z).len() == 4);
    assert(ne_bytes(b.x).len() == 4 && ne_bytes(b.y).len() == 4 && ne_bytes(b.z).len() == 4);
    assert(ne_bytes(a.x) =~= ka.subrange(0, 4));
    assert(ne_bytes(b.x) =~= kb.subrange(0, 4));
    assert(ne_bytes(a.y) =~= ka.subrange(4, 8));
    assert(ne_bytes(b.y) =~= kb.subrange(4, 8));
    assert(ne_bytes(a.z) =~= ka.subrange(8, 12));
    assert(ne_bytes(b.z) =~= kb.subrange(8, 12));
    lemma_ne_bytes_injective(a.x, b.x);
    lemma_ne_bytes_injective(a.y, b.y);
    lemma_ne_bytes_injective(a.z, b.z);
}

/// The key of a coordinate: the array that holds its twelve key bytes.
pub open spec fn spec_coord2key(coord: IVec3) -> SeaHashKey {
    choose|key: SeaHashKey| key@ == spec_key_bytes(coord)
}

/// An array is the key of a coordinate exactly if it holds the coordinate's key bytes.
pub proof fn lemma_key_of_bytes(key: SeaHashKey, coord: IVec3)
    requires
        key@ == spec_key_bytes(coord),
    ensures
        key == spec_coord2key(coord),
{
    let chosen = spec_coord2key(coord);
    assert(chosen@ == spec_key_bytes(coord));
    assert(chosen@ =~= key@);
    vstd::array::axiom_array_ext_equal(chosen, key);
}

/// Every coordinate has a key, and distinct coordinates have distinct keys.
pub proof fn lemma_coord2key(a: IVec3, b: IVec3)
    ensures
        spec_coord2key(a)@ == spec_key_bytes(a),
        spec_coord2key(a) == spec_coord2key(b) ==> a == b,
{
    lemma_key_exists(a);
    lemma_key_exists(b);
    if spec_coord2key(a) == spec_coord2key(b) {
        lemma_coord2key_injective(a, b);
    }
}

/// An array whose first `n` bytes are those of `bytes`.
spec fn array_of_prefix(bytes: Seq<u8>, n: nat) -> SeaHashKey
    decreases n,
{
    if n == 0 {
        vstd::array::spec_array_fill_for_copy_type(0u8)
    } else {
        vstd::array::spec_array_update(
            array_of_prefix(bytes, (n - 1) as nat),
            n - 1,
            bytes[n - 1],
        )
    }
}

proof fn lemma_array_of_prefix(bytes: Seq<u8>, n: nat)
    requires
        n <= 12,
        bytes.len() == 12,
    ensures
        array_of_prefix(bytes, n)@.len() == 12,
        forall|j: int| 0 <= j < n ==> array_of_prefix(bytes, n)@[j] == bytes[j],
    decreases n,
{
    if n == 0 {
        vstd::array::axiom_spec_array_fill_for_copy_type::<u8, 12>(0u8);
        vstd::array::array_len_matches_n(&array_of_prefix(bytes, 0));
    } else {
        lemma_array_of_prefix(bytes, (n - 1) as nat);
        vstd::array::axiom_spec_array_update(
            array_of_prefix(bytes, (n - 1) as nat),
            n - 1,
            bytes[n - 1],
        );
    }
}

proof fn lemma_key_exists(coord: IVec3)
    ensures
        spec_coord2key(coord)@ == spec_key_bytes(coord),
{
    let bytes = spec_key_bytes(coord);
    assert(bytes.len() == 12);
    lemma_array_of_prefix(bytes, 12);
    let key = array_of_prefix(bytes, 12);
    assert(key@ =~= bytes);
}

/// Encodes a coordinate as its twelve-byte key.
pub fn coord2key(coord: IVec3) -> (key: SeaHashKey)
    ensures
        key@ == spec_key_bytes(coord),
        key == spec_coord2key(coord),
{
    let x = i32_to_ne_bytes(coord.x);
    let y = i32_to_ne_bytes(coord.y);
    let z = i32_to_ne_bytes(coord.z);
    let key: SeaHashKey = [x[0], x[1], x[2], x[3], y[0], y[1], y[2], y[3], z[0], z[1], z[2], z[3]];
    assert(key@ =~= spec_key_bytes(coord));
    proof {
        lemma_key_of_bytes(key, coord);
    }
    key
}

/// Decodes a key: the one coordinate whose key it is.
pub fn key2coord(key: &SeaHashKey) -> (coord: IVec3)
    ensures
        spec_key_bytes(coord) == key@,
        spec_coord2key(coord) == *key,
{
    let x = i32_from_ne_bytes([key[0], key[1], key[2], key[3]]);
    let y = i32_from_ne_bytes([key[4], key[5], key[6], key[7]]);
    let z = i32_from_ne_bytes([key[8], key[9], key[10], key[11]]);
    let coord = IVec3 { x, y, z };
    assert(spec_key_bytes(coord) =~= key@);
    proof {
        lemma_key_of_bytes(*key, coord);
    }
    coord
}

/// A key decodes to the coordinate it was made from.
pub proof fn lemma_key_round_trip(coord: IVec3, decoded: IVec3)
    requires
        spec_coord2key(decoded) == spec_coord2key(coord),
    ensures
        decoded == coord,
{
    lemma_coord2key(decoded, coord);
}

/// The place of a voxel in a row-major grid of `size` voxels per axis, `x` running fastest.
pub open spec fn spec_coord2ind(coord: IVec3, size: int) -> int {
    coord.x + (coord.y + coord.z * size) * size
}

/// The voxel at place `ind` of a row-major grid of `size` voxels per axis.
pub open spec fn spec_ind2coord(ind: int, size: int) -> IVec3 {
    IVec3 { x: (ind % size) as i32, y: ((ind / size) % size) as i32, z: ((ind / size) / size) as i32 }
}

/// Places inside the grid: a voxel of the cube `[0, size)^3` has a place in `[0, size^3)`.
pub proof fn lemma_coord2ind_bounds(coord: IVec3, size: int)
    requires
        size > 0,
        coord.within(0, size),
    ensures
        0 <= spec_coord2ind(coord, size) < size * size * size,
        0 <= coord.z * size <= (size - 1) * size,
        0 <= coord.y + coord.z * size < size * size,
{
    let row = coord.y + coord.z * size;
    assert(0 <= coord.z * size <= (size - 1) * size) by (nonlinear_arith)
        requires
            0 <= coord.z < size,
    ;
    assert(row < size * size) by (nonlinear_arith)
        requires
            coord.y < size,
            coord.z * size <= (size - 1) * size,
            row == coord.y + coord.z * size,
    ;
    assert(0 <= row * size && row * size <= (size * size - 1) * size) by (nonlinear_arith)
        requires
            0 <= row < size * size,
            size > 0,
    ;
    assert((size * size - 1) * size == size * size * size - size) by (nonlinear_arith);
}

/// Distinct voxels of the cube have distinct places.
pub proof fn lemma_coord2ind_injective(a: IVec3, b: IVec3, size: int)
    requires
        size > 0,
        a.within(0, size),
        b.within(0, size),
        spec_coord2ind(a, size) == spec_coord2ind(b, size),
    ensures
        a == b,
{
    let ra = a.y + a.z * size;
    let rb = b.y + b.z * size;
    assert(ra == rb && a.x == b.x) by (nonlinear_arith)
        requires
            a.x + ra * size == b.x + rb * size,
            0 <= a.x < size,
            0 <= b.x < size,
    ;
    assert(a.z == b.z && a.y == b.y) by (nonlinear_arith)
        requires
            a.y + a.z * size == b.y + b.z * size,
            0 <= a.y < size,
            0 <= b.y < size,
    ;
}

/// The place of `coord` in a row-major grid of `size` voxels per axis.
pub fn coord2ind(coord: IVec3, size: i32) -> (ind: i32)
    requires
        fits_i32(coord.z * size),
        fits_i32(coord.y + coord.z * size),
        fits_i32((coord.y + coord.z * size) * size),
        fits_i32(spec_coord2ind(coord, size as int)),
    ensures
        ind == spec_coord2ind(coord, size as int),
{
    coord.x + (coord.y + coord.z * size) * size
}

/// The voxel at place `ind` of a row-major grid of `size` voxels per axis.
pub fn ind2coord(ind: i32, size: i32) -> (coord: IVec3)
    requires
        size > 0,
        ind >= 0,
    ensures
        coord == spec_ind2coord(ind as int, size as int),
        0 <= coord.x < size,
        0 <= coord.y < size,
        0 <= coord.z,
        ind < size * size * size ==> spec_coord2ind(coord, size as int) == ind && coord.z < size,
{
    let x: i32 = ind % size;
    let r: i32 = ind / size;
    let y: i32 = r % size;
    let z: i32 = r / size;
    proof {
        let n = ind as int;
        let s = size as int;
        lemma_fundamental_div_mod(n, s);
        lemma_mod_bound(n, s);
        lemma_floor_div_bound(n, s);
        lemma_fundamental_div_mod(n / s, s);
        lemma_mod_bound(n / s, s);
        lemma_floor_div_bound(n / s, s);
        assert(n == s * (n / s) + n % s);
        assert(n / s == s * ((n / s) / s) + (n / s) % s);
        assert(x + (y + z * s) * s == n) by (nonlinear_arith)
            requires
                n == s * r + x,
                r == s * z + y,
        ;
        if n < s * s * s {
            assert(z < s) by (nonlinear_arith)
                requires
                    n < s * s * s,
                    n == x + (y + z * s) * s,
                    x >= 0,
                    y >= 0,
                    z >= 0,
                    s > 0,
            ;
        }
    }
    IVec3 { x, y, z }
}

/// The remainder of `x` by a positive `m` with the sign of `x`.
pub open spec fn spec_rem(x: int, m: int) -> int {
    if x >= 0 {
        x % m
    } else {
        -((-x) % m)
    }
}

/// The remainder of `x` by a positive `m` with the sign of `x`.
pub fn signed_rem(x: i32, m: i32) -> (r: i32)
    requires
        m > 0,
    ensures
        r == spec_rem(x as int, m as int),
        -m < r < m,
{
    proof {
        lemma_mod_bound(x as int, m as int);
        lemma_mod_bound(-(x as int), m as int);
        vstd::arithmetic::div_mod::lemma_small_mod(0, m as nat);
        assert((x as int) * -1 == -(x as int));
    }
    match x.checked_rem(m) {
        Some(r) => r,
        None => 0,
    }
}

/// The lattice position of the voxel `coord` of the chunk at `chunk_coord`.
pub fn coord2pos(coord: IVec3, chunk_coord: IVec3, size: i32) -> (pos: IVec3)
    requires
        chunk_coord.can_scale(size),
        coord.can_plus(chunk_coord.spec_scaled(size)),
    ensures
        pos == coord.spec_plus(chunk_coord.spec_scaled(size)),
{
    coord.plus(chunk_coord.scaled(size))
}

/// The place, in the grid of its chunk, of the voxel at the lattice position `pos`.
pub fn pos2ind(pos: IVec3, size: i32) -> (ind: i32)
    requires
        0 < size <= 1024,
    ensures
        ind == spec_coord2ind(
            IVec3 { x: (pos.x % size) as i32, y: (pos.y % size) as i32, z: (pos.z % size) as i32 },
            size as int,
        ),
        0 <= ind < size * size * size,
{
    let v = ivec3(
        positive_modulo(pos.x, size),
        positive_modulo(pos.y, size),
        positive_modulo(pos.z, size),
    );
    proof {
        lemma_coord2ind_bounds(v, size as int);
        assert(size * size * size <= 1024 * 1024 * 1024) by (nonlinear_arith)
            requires
                0 < size <= 1024,
        ;
        assert((size - 1) * size <= 1024 * 1024) by (nonlinear_arith)
            requires
                0 < size <= 1024,
        ;
        assert(size * size <= 1024 * 1024) by (nonlinear_arith)
            requires
                0 < size <= 1024,
        ;
        let row = v.y + v.z * size;
        assert(0 <= row * size <= size * size * size) by (nonlinear_arith)
            requires
                0 <= row < size * size,
                size > 0,
        ;
    }
    v.x + (v.y + v.z * size) * size
}

/// The lattice position `pos` reduced by `size` along each axis, each
/// remainder with the sign of its axis.
pub fn pos2coord(pos: IVec3, size: i32) -> (coord: IVec3)
    requires
        size > 0,
    ensures
        coord.x == spec_rem(pos.x as int, size as int),
        coord.y == spec_rem(pos.y as int, size as int),
        coord.z == spec_rem(pos.z as int, size as int),
{
    ivec3(signed_rem(pos.x, size), signed_rem(pos.y, size), signed_rem(pos.z, size))
}

/// The chunk that holds the lattice position `pos`.
pub fn pos2chunk(pos: IVec3, size: i32) -> (chunk: IVec3)
    requires
        size > 0,
    ensures
        chunk.x == spec_floor_div(pos.x as int, size as int),
        chunk.y == spec_floor_div(pos.y as int, size as int),
        chunk.z == spec_floor_div(pos.z as int, size as int),
{
    ivec3(floor_div(pos.x, size), floor_div(pos.y, size), floor_div(pos.z, size))
}

/// The lattice position of the origin of the chunk at `chunk_coord`.
pub fn chunk2pos(chunk_coord: IVec3, size: i32) -> (pos: IVec3)
    requires
        chunk_coord.can_scale(size),
    ensures
        pos == chunk_coord.spec_scaled(size),
{
    chunk_coord.scaled(size)
}

/// Splits a lattice position into the part that is a multiple of `size` and
/// the remainder, each remainder with the sign of its axis.
pub fn coord2mixed(mixed_coord: IVec3, size: i32) -> (parts: (IVec3, IVec3))
    requires
        size > 0,
    ensures
        parts.1.x == spec_rem(mixed_coord.x as int, size as int),
        parts.1.y == spec_rem(mixed_coord.y as int, size as int),
        parts.1.z == spec_rem(mixed_coord.z as int, size as int),
        parts.0.x == mixed_coord.x - parts.1.x,
        parts.0.y == mixed_coord.y - parts.1.y,
        parts.0.z == mixed_coord.z - parts.1.z,
{
    let coord = pos2coord(mixed_coord, size);
    proof {
        lemma_rem_towards_zero(mixed_coord.x as int, size as int);
        lemma_rem_towards_zero(mixed_coord.y as int, size as int);
        lemma_rem_towards_zero(mixed_coord.z as int, size as int);
    }
    let chunk = mixed_coord.minus(coord);
    (chunk, coord)
}

/// A remainder with the sign of its number lies between zero and the number.
proof fn lemma_rem_towards_zero(x: int, m: int)
    requires
        m > 0,
    ensures
        x >= 0 ==> 0 <= spec_rem(x, m) <= x,
        x < 0 ==> x <= spec_rem(x, m) <= 0,
{
    lemma_mod_bound(x, m);
    lemma_mod_bound(-x, m);
    lemma_fundamental_div_mod(x, m);
    lemma_fundamental_div_mod(-x, m);
    lemma_floor_div_bound(x, m);
    lemma_floor_div_bound(-x, m);
    if x >= 0 {
        assert(m * (x / m) >= 0) by (nonlinear_arith)
            requires
                m > 0,
                x / m >= 0,
        ;
    } else {
        assert(m * ((-x) / m) >= 0) by (nonlinear_arith)
            requires
                m > 0,
                (-x) / m >= 0,
        ;
    }
}

/// Splits the position that a key stands for: see `coord2mixed`.
pub fn key2mixed(key: SeaHashKey, size: i32) -> (parts: (IVec3, IVec3))
    requires
        size > 0,
    ensures
        spec_coord2key(IVec3 {
            x: (parts.0.x + parts.1.x) as i32,
            y: (parts.0.y + parts.1.y) as i32,
            z: (parts.0.z + parts.1.z) as i32,
        }) == key,
        parts.1.x == spec_rem(parts.0.x + parts.1.x, size as int),
        parts.1.y == spec_rem(parts.0.y + parts.1.y, size as int),
        parts.1.z == spec_rem(parts.0.z + parts.1.z, size as int),
{
    let coord = key2coord(&key);
    coord2mixed(coord, size)
}

/// Splits the position that a key stands for, and hands back the keys of both parts.
pub fn key2mixedkey(key: SeaHashKey, size: i32) -> (keys: (SeaHashKey, SeaHashKey))
    requires
        size > 0,
    ensures
        exists|parts: (IVec3, IVec3)|
            keys.0 == spec_coord2key(parts.0) && keys.1 == spec_coord2key(parts.1)
                && #[trigger] spec_coord2key(IVec3 {
                x: (parts.0.x + parts.1.x) as i32,
                y: (parts.0.y + parts.1.y) as i32,
                z: (parts.0.z + parts.1.z) as i32,
            }) == key && parts.1.x == spec_rem(parts.0.x + parts.1.x, size as int) && parts.1.y
                == spec_rem(parts.0.y + parts.1.y, size as int) && parts.1.z == spec_rem(
                parts.0.z + parts.1.z,
                size as int,
            ),
{
    let (a, b) = key2mixed(key, size);
    let keys = (coord2key(a), coord2key(b));
    proof {
        let parts = (a, b);
        assert(keys.0 == spec_coord2key(parts.0) && keys.1 == spec_coord2key(parts.1)
            && spec_coord2key(IVec3 {
            x: (parts.0.x + parts.1.x) as i32,
            y: (parts.0.y + parts.1.y) as i32,
            z: (parts.0.z + parts.1.z) as i32,
        }) == key);
    }
    keys
}

} // verus!
