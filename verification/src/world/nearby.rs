//! The order in which the chunks around a centre are visited: shell by
//! shell, nearest first.
use crate::math::fits_i32;
use crate::math::IVec3;
use crate::seqs::lemma_push_contains;
use crate::world::manager::ChunkManager;
use vstd::prelude::*;

verus! {

pub open spec fn spec_abs(a: int) -> int {
    if a < 0 {
        -a
    } else {
        a
    }
}

/// The shell of `c` around `orig`: the largest distance along an axis.
pub open spec fn spec_shell(orig: IVec3, c: IVec3) -> int {
    let dx = spec_abs(c.x - orig.x);
    let dy = spec_abs(c.y - orig.y);
    let dz = spec_abs(c.z - orig.z);
    if dx >= dy && dx >= dz {
        dx
    } else if dy >= dz {
        dy
    } else {
        dz
    }
}

/// The part of its shell that a step of `dz` along z belongs to: the cap
/// in front, the cap behind, or the cylinder between them.
pub open spec fn spec_part(shell: int, dz: int) -> int {
    if dz == shell {
        0
    } else if dz == -shell {
        1
    } else {
        2
    }
}

/// The rank of the place `(dx, dy, dz)` of part `part` of shell `shell`:
/// places are ranked by shell, then by part, then by `dz`, `dy` and `dx`.
pub open spec fn spec_place_rank(shell: int, part: int, dz: int, dy: int, dx: int) -> int {
    ((((shell * 3 + part) * 0x1_0000_0000 + (dz + 0x8000_0000)) * 0x1_0000_0000) + (dy
        + 0x8000_0000)) * 0x1_0000_0000 + (dx + 0x8000_0000)
}

/// The rank of the coordinate `c` in the order of visiting around `orig`.
#[verifier::opaque]
pub open spec fn spec_visit_rank(orig: IVec3, c: IVec3) -> int {
    let shell = spec_shell(orig, c);
    spec_place_rank(shell, spec_part(shell, c.z - orig.z), c.z - orig.z, c.y - orig.y, c.x - orig.x)
}

/// The coordinates stand in rising rank.
pub open spec fn visit_ordered(orig: IVec3, coords: Seq<IVec3>) -> bool {
    forall|i: int, j: int|
        0 <= i < j < coords.len() ==> spec_visit_rank(orig, #[trigger] coords[i]) < spec_visit_rank(
            orig,
            #[trigger] coords[j],
        )
}

/// `c` lies in the layer at height `dz` of shell `k`: in the square of that
/// height, or only on its rim where the layer belongs to the cylinder.
pub open spec fn in_layer(orig: IVec3, c: IVec3, k: int, dz: int, rim: bool) -> bool {
    &&& c.z - orig.z == dz
    &&& spec_abs(c.x - orig.x) <= k
    &&& spec_abs(c.y - orig.y) <= k
    &&& (!rim || spec_abs(c.x - orig.x) == k || spec_abs(c.y - orig.y) == k)
}

/// `(dy, dx)` comes before `(y, x)` row by row.
pub open spec fn row_before(dy: int, dx: int, y: int, x: int) -> bool {
    dy < y || (dy == y && dx < x)
}

/// The number of places of a square of shell `k`, or of its rim.
pub open spec fn layer_count(k: int, rim: bool) -> int {
    if rim {
        8 * k
    } else {
        (2 * k + 1) * (2 * k + 1)
    }
}

/// The number of places of a layer in its rows before row `y`.
pub open spec fn rows_count(k: int, y: int, rim: bool) -> int {
    if !rim {
        (y + k) * (2 * k + 1)
    } else if y == -k {
        0
    } else if y <= k {
        (2 * k + 1) + 2 * (y + k - 1)
    } else {
        8 * k
    }
}

/// The number of places of row `y` of a layer before column `x`.
pub open spec fn row_count(k: int, y: int, x: int, rim: bool) -> int {
    if !rim || y == k || y == -k {
        x + k
    } else {
        (if x > -k {
            1int
        } else {
            0int
        }) + (if x > k {
            1int
        } else {
            0int
        })
    }
}

/// The number of coordinates within `dist` of a centre along every axis.
pub open spec fn spec_nearby_count(dist: int) -> int {
    if dist < 0 {
        0
    } else {
        (2 * dist + 1) * (2 * dist + 1) * (2 * dist + 1)
    }
}

/// A shell of two caps and a cylinder brings the cube of one size to the next.
proof fn lemma_shell_count(k: int)
    by (nonlinear_arith)
    requires
        k >= 1,
    ensures
        spec_nearby_count(k - 1) + 2 * layer_count(k, false) + (2 * k - 1) * layer_count(k, true)
            == spec_nearby_count(k),
{
}

proof fn lemma_rows_count(k: int, y: int, rim: bool)
    by (nonlinear_arith)
    requires
        0 <= k,
        -k <= y <= k,
        rim ==> k > 0,
    ensures
        rows_count(k, y, rim) + row_count(k, y, k + 1, rim) == rows_count(k, y + 1, rim),
        row_count(k, y, -k, rim) == 0,
        rows_count(k, -k, rim) == 0,
        rows_count(k, k + 1, rim) == layer_count(k, rim),
{
}

/// Appends one layer of shell `k`: the square at height `dz`, or its rim.
fn push_layer(coords: &mut Vec<IVec3>, orig: IVec3, k: i32, dz: i32, rim: bool)
    requires
        0 <= k < i32::MAX,
        -k <= dz <= k,
        rim == (-k < dz < k),
        fits_i32(orig.x - k) && fits_i32(orig.x + k),
        fits_i32(orig.y - k) && fits_i32(orig.y + k),
        fits_i32(orig.z - k) && fits_i32(orig.z + k),
        visit_ordered(orig, old(coords)@),
        forall|i: int|
            0 <= i < old(coords)@.len() ==> spec_visit_rank(orig, #[trigger] old(coords)@[i])
                < spec_place_rank(k as int, spec_part(k as int, dz as int), dz as int, -k, -k),
    ensures
        visit_ordered(orig, final(coords)@),
        final(coords)@.len() == old(coords)@.len() + layer_count(k as int, rim),
        forall|c: IVec3|
            final(coords)@.contains(c) <==> old(coords)@.contains(c) || in_layer(
                orig,
                c,
                k as int,
                dz as int,
                rim,
            ),
        forall|i: int|
            0 <= i < final(coords)@.len() ==> spec_visit_rank(orig, #[trigger] final(coords)@[i])
                < spec_place_rank(k as int, spec_part(k as int, dz as int), dz as int, k + 1, -k),
{
    let ghost part = spec_part(k as int, dz as int);
    proof {
        lemma_rows_count(k as int, -k, rim);
    }
    let mut y: i32 = -k;
    while y <= k
        invariant
            0 <= k < i32::MAX,
            -k <= dz <= k,
            rim == (-k < dz < k),
            part == spec_part(k as int, dz as int),
            -k <= y <= k + 1,
            coords@.len() == old(coords)@.len() + rows_count(k as int, y as int, rim),
            fits_i32(orig.x - k) && fits_i32(orig.x + k),
            fits_i32(orig.y - k) && fits_i32(orig.y + k),
            fits_i32(orig.z - k) && fits_i32(orig.z + k),
            visit_ordered(orig, coords@),
            forall|c: IVec3|
                coords@.contains(c) <==> old(coords)@.contains(c) || (in_layer(
                    orig,
                    c,
                    k as int,
                    dz as int,
                    rim,
                ) && c.y - orig.y < y),
            forall|i: int|
                0 <= i < coords@.len() ==> spec_visit_rank(orig, #[trigger] coords@[i])
                    < spec_place_rank(k as int, part, dz as int, y as int, -k),
        decreases k + 1 - y,
    {
        let mut x: i32 = -k;
        while x <= k
            invariant
                0 <= k < i32::MAX,
                -k <= dz <= k,
                rim == (-k < dz < k),
                part == spec_part(k as int, dz as int),
                -k <= y <= k,
                -k <= x <= k + 1,
                coords@.len() == old(coords)@.len() + rows_count(k as int, y as int, rim)
                    + row_count(k as int, y as int, x as int, rim),
                fits_i32(orig.x - k) && fits_i32(orig.x + k),
                fits_i32(orig.y - k) && fits_i32(orig.y + k),
                fits_i32(orig.z - k) && fits_i32(orig.z + k),
                visit_ordered(orig, coords@),
                forall|c: IVec3|
                    coords@.contains(c) <==> old(coords)@.contains(c) || (in_layer(
                        orig,
                        c,
                        k as int,
                        dz as int,
                        rim,
                    ) && row_before(c.y - orig.y, c.x - orig.x, y as int, x as int)),
                forall|i: int|
                    0 <= i < coords@.len() ==> spec_visit_rank(orig, #[trigger] coords@[i])
                        < spec_place_rank(k as int, part, dz as int, y as int, x as int),
            decreases k + 1 - x,
        {
            if !rim || x == k || x == -k || y == k || y == -k {
                let c = IVec3 { x: orig.x + x, y: orig.y + y, z: orig.z + dz };
                let ghost before = coords@;
                coords.push(c);
                proof {
                    reveal(spec_visit_rank);
                    assert(spec_shell(orig, c) == k);
                    assert(spec_visit_rank(orig, c) == spec_place_rank(
                        k as int,
                        part,
                        dz as int,
                        y as int,
                        x as int,
                    ));
                    assert forall|i: int, j: int| 0 <= i < j < coords@.len() implies spec_visit_rank(
                        orig,
                        #[trigger] coords@[i],
                    ) < spec_visit_rank(orig, #[trigger] coords@[j]) by {
                        assert(coords@[i] == before[i]);
                        if j < before.len() {
                            assert(coords@[j] == before[j]);
                        }
                    }
                    assert forall|t: IVec3|
                        coords@.contains(t) <==> old(coords)@.contains(t) || (in_layer(
                            orig,
                            t,
                            k as int,
                            dz as int,
                            rim,
                        ) && row_before(t.y - orig.y, t.x - orig.x, y as int, x + 1)) by {
                        lemma_push_contains(before, c, t);
                    }
                }
            }
            x += 1;
        }
        proof {
            lemma_rows_count(k as int, y as int, rim);
        }
        y += 1;
    }
    proof {
        lemma_rows_count(k as int, k as int, rim);
    }
}

impl ChunkManager {
    /// The coordinates within `dist` of `orig` along every axis, each once,
    /// in rising rank: shell by shell from the centre outwards, and within a
    /// shell the cap in front, the cap behind, then the cylinder between them.
    pub fn nearby_coords(orig: IVec3, dist: i32) -> (coords: Vec<IVec3>)
        requires
            dist < i32::MAX,
            dist > 0 ==> fits_i32(orig.x - dist) && fits_i32(orig.x + dist),
            dist > 0 ==> fits_i32(orig.y - dist) && fits_i32(orig.y + dist),
            dist > 0 ==> fits_i32(orig.z - dist) && fits_i32(orig.z + dist),
        ensures
            visit_ordered(orig, coords@),
            forall|c: IVec3| coords@.contains(c) <==> spec_shell(orig, c) <= dist,
            coords@.len() == spec_nearby_count(dist as int),
            dist == 0 ==> coords@ == seq![orig],
    {
        let mut coords: Vec<IVec3> = Vec::new();
        let mut k: i32 = 0;
        while k <= dist
            invariant
                0 <= k,
                dist >= 0 ==> k <= dist + 1,
                dist < 0 ==> k == 0,
                dist < i32::MAX,
                dist > 0 ==> fits_i32(orig.x - dist) && fits_i32(orig.x + dist),
                dist > 0 ==> fits_i32(orig.y - dist) && fits_i32(orig.y + dist),
                dist > 0 ==> fits_i32(orig.z - dist) && fits_i32(orig.z + dist),
                visit_ordered(orig, coords@),
                coords@.len() == spec_nearby_count(k - 1),
                forall|c: IVec3| coords@.contains(c) <==> spec_shell(orig, c) < k,
                forall|i: int|
                    0 <= i < coords@.len() ==> spec_visit_rank(orig, #[trigger] coords@[i])
                        < spec_place_rank(k as int, 0, k as int, -k, -k),
            decreases dist + 1 - k,
        {
            push_layer(&mut coords, orig, k, k, false);
            if k > 0 {
                push_layer(&mut coords, orig, k, -k, false);
                let mut z: i32 = 1 - k;
                while z < k
                    invariant
                        0 < k <= dist,
                        1 - k <= z <= k,
                        dist < i32::MAX,
                        coords@.len() == spec_nearby_count(k - 1) + 2 * layer_count(k as int, false)
                            + (z - (1 - k)) * layer_count(k as int, true),
                        fits_i32(orig.x - dist) && fits_i32(orig.x + dist),
                        fits_i32(orig.y - dist) && fits_i32(orig.y + dist),
                        fits_i32(orig.z - dist) && fits_i32(orig.z + dist),
                        visit_ordered(orig, coords@),
                        forall|c: IVec3|
                            coords@.contains(c) <==> spec_shell(orig, c) < k || in_layer(
                                orig,
                                c,
                                k as int,
                                k as int,
                                false,
                            ) || in_layer(orig, c, k as int, -k, false) || (in_layer(
                                orig,
                                c,
                                k as int,
                                c.z - orig.z,
                                true,
                            ) && -k < c.z - orig.z < z),
                        forall|i: int|
                            0 <= i < coords@.len() ==> spec_visit_rank(orig, #[trigger] coords@[i])
                                < spec_place_rank(k as int, 2, z as int, -k, -k),
                    decreases k - z,
                {
                    push_layer(&mut coords, orig, k, z, true);
                    proof {
                        let rim = layer_count(k as int, true);
                        assert((z + 1 - (1 - k)) * rim == (z - (1 - k)) * rim + rim)
                            by (nonlinear_arith);
                    }
                    z += 1;
                }
            }
            proof {
                if k > 0 {
                    lemma_shell_count(k as int);
                }
                assert forall|c: IVec3| coords@.contains(c) <==> spec_shell(orig, c) < k + 1 by {
                    let dz = c.z - orig.z;
                    if spec_shell(orig, c) == k && -k < dz < k {
                        assert(in_layer(orig, c, k as int, dz, true));
                    }
                }
            }
            k += 1;
        }
        proof {
            assert forall|c: IVec3| coords@.contains(c) <==> spec_shell(orig, c) <= dist by {
                assert(spec_shell(orig, c) >= 0);
            }
            if dist == 0 {
                assert(spec_shell(orig, orig) == 0);
                assert(coords@.contains(orig));
                assert forall|i: int| 0 <= i < coords@.len() implies coords@[i] == orig by {
                    assert(coords@.contains(coords@[i]));
                }
                if coords@.len() >= 2 {
                    assert(spec_visit_rank(orig, coords@[0]) < spec_visit_rank(orig, coords@[1]));
                }
                assert(coords@ =~= seq![orig]);
            }
        }
        coords
    }

    /// The list of visits holds no coordinate twice.
    pub proof fn lemma_visits_distinct(orig: IVec3, coords: Seq<IVec3>)
        requires
            visit_ordered(orig, coords),
        ensures
            coords.no_duplicates(),
    {
        assert forall|i: int, j: int| 0 <= i < coords.len() && 0 <= j < coords.len() && i != j implies coords[i]
            != coords[j] by {
            if i < j {
                assert(spec_visit_rank(orig, coords[i]) < spec_visit_rank(orig, coords[j]));
            } else {
                assert(spec_visit_rank(orig, coords[j]) < spec_visit_rank(orig, coords[i]));
            }
        }
    }

    /// Visits come shell by shell, and within a shell the caps come before the cylinder.
    pub proof fn lemma_visits_by_shell(orig: IVec3, coords: Seq<IVec3>, i: int, j: int)
        requires
            visit_ordered(orig, coords),
            0 <= i < j < coords.len(),
            forall|k: int|
                0 <= k < coords.len() ==> spec_shell(orig, #[trigger] coords[k]) < 0x4000_0000,
        ensures
            spec_shell(orig, coords[i]) <= spec_shell(orig, coords[j]),
            spec_shell(orig, coords[i]) == spec_shell(orig, coords[j]) ==> spec_part(
                spec_shell(orig, coords[i]),
                coords[i].z - orig.z,
            ) <= spec_part(spec_shell(orig, coords[j]), coords[j].z - orig.z),
    {
        reveal(spec_visit_rank);
        assert(spec_visit_rank(orig, coords[i]) < spec_visit_rank(orig, coords[j]));
        assert(spec_shell(orig, coords[i]) < 0x4000_0000);
        assert(spec_shell(orig, coords[j]) < 0x4000_0000);
    }
}

/// The place of the step `(dx, dy, dz)` in the cube of side `n` around a
/// centre, row by row and layer by layer.
pub open spec fn spec_cube_place(dx: int, dy: int, dz: int, dist: int) -> int {
    let n = 2 * dist + 1;
    (dx + dist) + n * ((dy + dist) + n * (dz + dist))
}

/// Three digits below `n` make a number below `n^3`, and different digits
/// make different numbers.
proof fn lemma_three_digits(a: int, b: int, c: int, n: int)
    requires
        n > 0,
        0 <= a < n,
        0 <= b < n,
        0 <= c < n,
    ensures
        0 <= a + n * (b + n * c) < n * n * n,
        (a + n * (b + n * c)) % n == a,
        ((a + n * (b + n * c)) / n) % n == b,
        ((a + n * (b + n * c)) / n) / n == c,
{
    let row = b + n * c;
    assert(0 <= row < n * n) by (nonlinear_arith)
        requires
            0 <= b < n,
            0 <= c < n,
            row == b + n * c,
    ;
    assert(0 <= a + n * row < n * n * n) by (nonlinear_arith)
        requires
            0 <= a < n,
            0 <= row < n * n,
            n > 0,
    ;
    assert(n * row == row * n && n * c == c * n) by (nonlinear_arith);
    vstd::arithmetic::div_mod::lemma_fundamental_div_mod_converse(a + n * row, n, row, a);
    vstd::arithmetic::div_mod::lemma_fundamental_div_mod_converse(row, n, c, b);
}

/// A number below `n^3` has three digits below `n`.
proof fn lemma_digits_of(i: int, n: int)
    requires
        n > 0,
        0 <= i < n * n * n,
    ensures
        0 <= i % n < n,
        0 <= (i / n) % n < n,
        0 <= (i / n) / n < n,
        i == i % n + n * ((i / n) % n + n * ((i / n) / n)),
{
    let row = i / n;
    vstd::arithmetic::div_mod::lemma_fundamental_div_mod(i, n);
    vstd::arithmetic::div_mod::lemma_mod_bound(i, n);
    vstd::arithmetic::div_mod::lemma_fundamental_div_mod(row, n);
    vstd::arithmetic::div_mod::lemma_mod_bound(row, n);
    assert(0 <= row < n * n) by (nonlinear_arith)
        requires
            i == n * row + i % n,
            0 <= i % n < n,
            0 <= i < n * n * n,
            n > 0,
    ;
    assert(0 <= row / n < n) by (nonlinear_arith)
        requires
            row == n * (row / n) + row % n,
            0 <= row % n < n,
            0 <= row < n * n,
            n > 0,
    ;
}

impl ChunkManager {
    /// A list that holds every coordinate within `dist` of `orig` along
    /// every axis, each once, and nothing else, holds `(2 dist + 1)^3`
    /// coordinates.
    pub proof fn lemma_visits_count(orig: IVec3, coords: Seq<IVec3>, dist: int)
        requires
            coords.no_duplicates(),
            forall|c: IVec3| coords.contains(c) <==> spec_shell(orig, c) <= dist,
            dist > 0 ==> fits_i32(orig.x - dist) && fits_i32(orig.x + dist),
            dist > 0 ==> fits_i32(orig.y - dist) && fits_i32(orig.y + dist),
            dist > 0 ==> fits_i32(orig.z - dist) && fits_i32(orig.z + dist),
        ensures
            coords.len() == spec_nearby_count(dist),
    {
        if dist < 0 {
            if coords.len() > 0 {
                assert(coords.contains(coords[0]));
                assert(spec_shell(orig, coords[0]) >= 0);
            }
        } else {
            let n = 2 * dist + 1;
            let place = |c: IVec3| spec_cube_place(c.x - orig.x, c.y - orig.y, c.z - orig.z, dist);
            let places = coords.map_values(place);
            assert forall|i: int, j: int|
                0 <= i < places.len() && 0 <= j < places.len() && i != j implies places[i]
                != places[j] by {
                let a = coords[i];
                let b = coords[j];
                assert(coords.contains(a) && coords.contains(b));
                lemma_three_digits(a.x - orig.x + dist, a.y - orig.y + dist, a.z - orig.z + dist, n);
                lemma_three_digits(b.x - orig.x + dist, b.y - orig.y + dist, b.z - orig.z + dist, n);
            }
            assert(places.to_set() =~= vstd::set_lib::set_int_range(0, n * n * n)) by {
                assert forall|i: int|
                    places.to_set().contains(i) <==> vstd::set_lib::set_int_range(
                        0,
                        n * n * n,
                    ).contains(i) by {
                    if places.to_set().contains(i) {
                        let j = choose|j: int| 0 <= j < places.len() && places[j] == i;
                        let a = coords[j];
                        assert(coords.contains(a));
                        lemma_three_digits(
                            a.x - orig.x + dist,
                            a.y - orig.y + dist,
                            a.z - orig.z + dist,
                            n,
                        );
                    }
                    if 0 <= i < n * n * n {
                        lemma_digits_of(i, n);
                        let c = IVec3 {
                            x: (orig.x + i % n - dist) as i32,
                            y: (orig.y + (i / n) % n - dist) as i32,
                            z: (orig.z + (i / n) / n - dist) as i32,
                        };
                        assert(spec_shell(orig, c) <= dist);
                        assert(coords.contains(c));
                        let j = choose|j: int| 0 <= j < coords.len() && coords[j] == c;
                        assert(places[j] == i);
                    }
                }
            }
            places.unique_seq_to_set();
            assert(0 <= n * n * n) by (nonlinear_arith)
                requires
                    n > 0,
            ;
            vstd::set_lib::lemma_int_range(0, n * n * n);
        }
    }
}

} // verus!
