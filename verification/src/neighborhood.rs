use vstd::arithmetic::div_mod::{
    lemma_fundamental_div_mod, lemma_mod_bound, lemma_mod_multiples_vanish, lemma_small_mod,
};
use vstd::prelude::*;

use crate::best::{argmin_f, is_first_minimum};
use crate::order_key::OrderKey;

verus! {

/// Neighbourhood topology.
#[derive(Clone, Copy, Debug, PartialEq, Eq, Structural)]
pub enum NeighborhoodType {
    /// Ring of radius `rho` around each particle.
    Lbest,
    /// Every particle sees the whole swarm.
    Gbest,
}

impl NeighborhoodType {
    /// The text by which the topology is shown to a user.
    pub fn label(&self) -> (s: &'static str)
        ensures
            *self == NeighborhoodType::Lbest ==> s@ == "Local neighborhood (lbest)"@,
            *self == NeighborhoodType::Gbest ==> s@ == "Global neighborhood (gbest)"@,
    {
        match self {
            NeighborhoodType::Lbest => "Local neighborhood (lbest)",
            NeighborhoodType::Gbest => "Global neighborhood (gbest)",
        }
    }
}

/// Neighbourhood index lists. Gbest does not allocate an n×n table.
#[derive(Clone, Debug)]
pub enum Neighborhoods {
    Gbest,
    Lbest(Vec<Vec<usize>>),
}

/// The `k`-th member of the ring of radius `rho` round particle `i` in a swarm
/// of `n`: particle `i + k - rho`, wrapped round modulo `n`.
pub open spec fn ring_member(i: int, k: int, rho: int, n: int) -> int {
    (i + k - rho) % n
}

/// `rows` holds, for each of the first `count` particles of a swarm of `n`,
/// the `2 * rho + 1` members of its ring, from `i - rho` up to `i + rho`.
pub open spec fn is_ring_prefix(rows: Seq<Vec<usize>>, count: int, rho: int, n: int) -> bool {
    &&& rows.len() == count
    &&& forall|i: int| 0 <= i < count ==> (#[trigger] rows[i])@.len() == 2 * rho + 1
    &&& forall|i: int, k: int|
        0 <= i < count && 0 <= k <= 2 * rho ==> (#[trigger] rows[i]@[k]) as int == ring_member(
            i,
            k,
            rho,
            n,
        )
}

/// `rows` holds the ring of radius `rho` of every particle of a swarm of `n`.
pub open spec fn is_ring(rows: Seq<Vec<usize>>, n: int, rho: int) -> bool {
    is_ring_prefix(rows, n, rho, n)
}

/// The sizes for which a ring can be built without overflowing the 32-bit
/// signed arithmetic that ring construction is defined with.
pub open spec fn ring_fits(population_size: int, rho: int) -> bool {
    population_size == 0 || {
        &&& 2 * rho + 1 <= i32::MAX
        &&& population_size - 1 + rho <= i32::MAX
        &&& 2 * population_size - 1 <= i32::MAX
    }
}

/// The keys of the particles that a row of indices names.
pub open spec fn keys_of(row: Seq<usize>, best: Seq<OrderKey>) -> Seq<OrderKey> {
    row.map_values(|idx: usize| best[idx as int])
}

proof fn lemma_ring_member_unsigned(i: int, k: int, rho: int, n: int)
    requires
        0 < n,
        0 <= rho,
    ensures
        (i + k + n - rho % n) % n == ring_member(i, k, rho, n),
{
    lemma_fundamental_div_mod(rho, n);
    assert(i + k + n - rho % n == n * (1 + rho / n) + (i + k - rho)) by (nonlinear_arith)
        requires
            rho == n * (rho / n) + rho % n,
    ;
    lemma_mod_multiples_vanish(1 + rho / n, i + k - rho, n);
}

/// Whether a ring of radius `rho` can be built for a swarm of
/// `population_size`.
pub fn can_build_ring(population_size: usize, rho: usize) -> (r: bool)
    ensures
        r == ring_fits(population_size as int, rho as int),
{
    if population_size == 0 {
        return true;
    }
    if rho > 1073741823 {
        return false;
    }
    population_size - 1 <= 2147483647 - rho && population_size <= 1073741824
}

/// Whether `local_best` may be asked about particle `i` with `best_len`
/// personal bests: for Lbest the particle needs a nonempty ring whose members
/// all have a personal best.
pub open spec fn local_best_defined(neighborhoods: Neighborhoods, best_len: int, i: int) -> bool {
    neighborhoods matches Neighborhoods::Lbest(rows) ==> {
        &&& i < rows@.len()
        &&& rows@[i]@.len() >= 1
        &&& forall|k: int| 0 <= k < rows@[i]@.len() ==> (#[trigger] rows@[i]@[k]) < best_len
    }
}

/// Whether `local_best` may be asked about particle `i` with `best_len`
/// personal bests.
pub fn local_best_applies(neighborhoods: &Neighborhoods, best_len: usize, i: usize) -> (r: bool)
    ensures
        r == local_best_defined(*neighborhoods, best_len as int, i as int),
{
    match neighborhoods {
        Neighborhoods::Gbest => true,
        Neighborhoods::Lbest(rows) => {
            if i >= rows.len() || rows[i].len() == 0 {
                return false;
            }
            let row = &rows[i];
            let mut k: usize = 0;
            while k < row.len()
                invariant
                    k <= row@.len(),
                    i < rows@.len(),
                    *neighborhoods == Neighborhoods::Lbest(*rows),
                    row@ == rows@[i as int]@,
                    forall|c: int| 0 <= c < k ==> (#[trigger] row@[c]) < best_len,
                decreases row@.len() - k,
            {
                if row[k] >= best_len {
                    assert(rows@[i as int]@[k as int] >= best_len);
                    return false;
                }
                k = k + 1;
            }
            true
        },
    }
}

/// Ring of radius `rho` including the particle itself, with modular wrap.
pub fn create_neighborhoods(
    population_size: usize,
    neighborhood_type: NeighborhoodType,
    rho: usize,
) -> (r: Neighborhoods)
    requires
        neighborhood_type == NeighborhoodType::Lbest ==> ring_fits(population_size as int, rho as int),
    ensures
        neighborhood_type == NeighborhoodType::Gbest ==> r is Gbest,
        neighborhood_type == NeighborhoodType::Lbest ==> (r matches Neighborhoods::Lbest(rows)
            && is_ring(rows@, population_size as int, rho as int)),
{
    match neighborhood_type {
        NeighborhoodType::Gbest => Neighborhoods::Gbest,
        NeighborhoodType::Lbest => {
            let n: u64 = population_size as u64;
            let radius: u64 = rho as u64;
            let width: usize = if population_size == 0 {
                0
            } else {
                2 * rho + 1
            };
            let mut neighborhoods: Vec<Vec<usize>> = Vec::with_capacity(population_size);
            let mut i: usize = 0;
            while i < population_size
                invariant
                    ring_fits(population_size as int, rho as int),
                    n == population_size,
                    radius == rho,
                    population_size > 0 ==> width == 2 * rho + 1,
                    i <= population_size,
                    is_ring_prefix(neighborhoods@, i as int, rho as int, population_size as int),
                decreases population_size - i,
            {
                let shift: u64 = n - radius % n;
                let mut neighbor: Vec<usize> = Vec::with_capacity(width);
                let mut k: usize = 0;
                while k < width
                    invariant
                        ring_fits(population_size as int, rho as int),
                        n == population_size,
                        radius == rho,
                        width == 2 * rho + 1,
                        i < population_size,
                        shift == n - radius % n,
                        is_ring_prefix(neighborhoods@, i as int, rho as int, population_size as int),
                        k <= width,
                        neighbor@.len() == k,
                        forall|c: int|
                            0 <= c < k ==> (#[trigger] neighbor@[c]) as int == ring_member(
                                i as int,
                                c,
                                rho as int,
                                population_size as int,
                            ),
                    decreases width - k,
                {
                    let j: u64 = (i as u64 + k as u64 + shift) % n;
                    proof {
                        lemma_ring_member_unsigned(i as int, k as int, rho as int, n as int);
                    }
                    neighbor.push(j as usize);
                    k = k + 1;
                }
                let ghost before = neighborhoods@;
                neighborhoods.push(neighbor);
                proof {
                    assert forall|a: int, c: int|
                        0 <= a <= i && 0 <= c <= 2 * rho implies (#[trigger] neighborhoods@[a]@[c])
                        as int == ring_member(a, c, rho as int, population_size as int) by {
                        if a < i {
                            assert(neighborhoods@[a] == before[a]);
                            assert(before[a]@[c] as int == ring_member(
                                a,
                                c,
                                rho as int,
                                population_size as int,
                            ));
                        } else {
                            assert(neighborhoods@[a] == neighbor);
                            assert(neighbor@[c] as int == ring_member(
                                a,
                                c,
                                rho as int,
                                population_size as int,
                            ));
                        }
                    }
                    assert forall|a: int| 0 <= a <= i implies (#[trigger] neighborhoods@[a])@.len()
                        == 2 * rho + 1 by {
                        if a < i {
                            assert(neighborhoods@[a] == before[a]);
                        }
                    }
                }
                i = i + 1;
            }
            Neighborhoods::Lbest(neighborhoods)
        },
    }
}

/// The index of the best personal best that particle `i` sees: over the whole
/// swarm for Gbest (0 when the swarm is empty), over its ring for Lbest, the
/// first of equals in ring order and the first member when that one is NaN.
pub fn local_best(neighborhoods: &Neighborhoods, best: &[OrderKey], i: usize) -> (r: usize)
    requires
        local_best_defined(*neighborhoods, best@.len() as int, i as int),
    ensures
        neighborhoods is Gbest ==> if best@.len() == 0 {
            r == 0
        } else {
            is_first_minimum(best@, best@.len() as int, r as int)
        },
        neighborhoods matches Neighborhoods::Lbest(rows) ==> exists|k: int|
            is_first_minimum(keys_of(rows@[i as int]@, best@), rows@[i as int]@.len() as int, k)
                && r == rows@[i as int]@[k],
{
    match neighborhoods {
        Neighborhoods::Gbest => match argmin_f(best) {
            Some(b) => b,
            None => 0,
        },
        Neighborhoods::Lbest(neigh) => {
            let row: &Vec<usize> = &neigh[i];
            let ghost keys = keys_of(row@, best@);
            let mut best_k: usize = 0;
            let mut best_idx: usize = row[0];
            let mut best_f: OrderKey = best[best_idx];
            let mut k: usize = 1;
            while k < row.len()
                invariant
                    keys == keys_of(row@, best@),
                    forall|c: int| 0 <= c < row@.len() ==> (#[trigger] row@[c]) < best@.len(),
                    1 <= k <= row@.len(),
                    best_k < k,
                    best_idx == row@[best_k as int],
                    best_f == keys[best_k as int],
                    is_first_minimum(keys, k as int, best_k as int),
                decreases row@.len() - k,
            {
                let idx = row[k];
                let f = best[idx];
                assert(keys[k as int] == f);
                if f.lt(&best_f) {
                    best_f = f;
                    best_idx = idx;
                    best_k = k;
                }
                k = k + 1;
            }
            best_idx
        },
    }
}

/// Every particle belongs to its own ring: it is the middle member.
pub proof fn lemma_ring_contains_self(i: int, rho: int, n: int)
    requires
        0 <= i < n,
        0 <= rho,
    ensures
        ring_member(i, rho, rho, n) == i,
{
    lemma_small_mod(i as nat, n as nat);
}

/// Rings are symmetric: when `j` is the `k`-th member of the ring of `i`,
/// `i` is the `(2 * rho - k)`-th member of the ring of `j`.
pub proof fn lemma_ring_symmetric(i: int, k: int, rho: int, n: int)
    requires
        0 <= i < n,
        0 <= rho,
        0 <= k <= 2 * rho,
    ensures
        0 <= ring_member(i, k, rho, n) < n,
        0 <= 2 * rho - k <= 2 * rho,
        ring_member(ring_member(i, k, rho, n), 2 * rho - k, rho, n) == i,
{
    let x = i + k - rho;
    let j = x % n;
    lemma_fundamental_div_mod(x, n);
    let q = x / n;
    assert(j + (2 * rho - k) - rho == n * (-q) + i) by (nonlinear_arith)
        requires
            x == n * q + j,
            x == i + k - rho,
    ;
    lemma_mod_multiples_vanish(-q, i, n);
    lemma_small_mod(i as nat, n as nat);
}

/// Every particle of a ring neighbourhood can have its local best looked up:
/// when every particle of a nonempty swarm of `n` has a personal best, the
/// ring of each particle `i < n` is nonempty and names only particles of the
/// swarm.
pub proof fn lemma_every_ring_member_has_a_best(rows: Vec<Vec<usize>>, n: int, rho: int)
    requires
        n > 0,
        rho >= 0,
        is_ring(rows@, n, rho),
    ensures
        forall|i: int| 0 <= i < n ==> #[trigger] local_best_defined(Neighborhoods::Lbest(rows), n, i),
{
    assert forall|i: int| 0 <= i < n implies #[trigger] local_best_defined(
        Neighborhoods::Lbest(rows),
        n,
        i,
    ) by {
        assert(rows@[i]@.len() == 2 * rho + 1);
        assert forall|k: int| 0 <= k < rows@[i]@.len() implies (#[trigger] rows@[i]@[k]) < n by {
            lemma_mod_bound(i + k - rho, n);
            assert(rows@[i]@[k] as int == ring_member(i, k, rho, n));
        }
    }
}

/// Rings can be built for every swarm of up to 2^30 particles with a radius
/// of up to 2^29, rings wider than the swarm included: they simply wrap round
/// more than once.
pub proof fn lemma_rings_fit_any_reasonable_swarm(population_size: int, rho: int)
    requires
        0 <= population_size <= 0x4000_0000,
        0 <= rho <= 0x2000_0000,
    ensures
        ring_fits(population_size, rho),
{
}

} // verus!
