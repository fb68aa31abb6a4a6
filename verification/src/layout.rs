use vstd::prelude::*;

verus! {

/// The product of the dimensions, taken left to right.
pub open spec fn dims_product(dims: Seq<usize>) -> int
    decreases dims.len(),
{
    if dims.len() == 0 {
        1
    } else {
        dims_product(dims.drop_last()) * dims.last()
    }
}

/// Whether some running product of the dimensions, taken left to right,
/// exceeds `usize::MAX`.
pub open spec fn product_overflows(dims: Seq<usize>) -> bool {
    exists|k: int| 0 <= k <= dims.len() && dims_product(#[trigger] dims.take(k)) > usize::MAX
}

/// The flat length of a particle of the given shape: the product of the
/// dimensions, or `None` when computing it overflows.
pub fn flat_dimension(dims: &[usize]) -> (r: Option<usize>)
    ensures
        r is None <==> product_overflows(dims@),
        r matches Some(p) ==> p == dims_product(dims@),
{
    let mut acc: usize = 1;
    let mut i: usize = 0;
    assert(dims@.take(0) =~= Seq::<usize>::empty());
    while i < dims.len()
        invariant
            i <= dims@.len(),
            acc == dims_product(dims@.take(i as int)),
            forall|k: int| 0 <= k <= i ==> dims_product(#[trigger] dims@.take(k)) <= usize::MAX,
        decreases dims@.len() - i,
    {
        assert(dims@.take(i + 1).drop_last() =~= dims@.take(i as int));
        match acc.checked_mul(dims[i]) {
            Some(p) => {
                acc = p;
            },
            None => {
                assert(dims_product(dims@.take(i + 1)) > usize::MAX);
                return None;
            },
        }
        i = i + 1;
    }
    assert(dims@.take(dims@.len() as int) =~= dims@);
    Some(acc)
}

/// The last dimension, which the bounds apply to; 1 when there is none.
pub fn last_dimension(dims: &[usize]) -> (r: usize)
    ensures
        r == if dims@.len() == 0 {
            1
        } else {
            dims@.last()
        },
{
    if dims.len() == 0 {
        1
    } else {
        dims[dims.len() - 1]
    }
}

/// For each flat coordinate `j` of a particle, the index `j % last_dim` of the
/// bound (and velocity limit) that applies to it.
pub fn bound_indices(flat_dim: usize, last_dim: usize) -> (r: Vec<usize>)
    requires
        flat_dim == 0 || last_dim > 0,
    ensures
        r@.len() == flat_dim,
        forall|j: int| 0 <= j < flat_dim ==> #[trigger] r@[j] == j % (last_dim as int),
{
    let mut r: Vec<usize> = Vec::with_capacity(flat_dim);
    let mut j: usize = 0;
    while j < flat_dim
        invariant
            j <= flat_dim,
            flat_dim == 0 || last_dim > 0,
            r@.len() == j,
            forall|c: int| 0 <= c < j ==> #[trigger] r@[c] == c % (last_dim as int),
        decreases flat_dim - j,
    {
        r.push(j % last_dim);
        j = j + 1;
    }
    r
}

/// Splits a flat particle into `dims[0]` rows of `dims[1]` coordinates.
pub fn reshape<T: Copy>(particle: &[T], dims: &[usize]) -> (r: Vec<Vec<T>>)
    requires
        dims@.len() >= 2,
        dims@[0] * dims@[1] <= particle@.len(),
    ensures
        r@.len() == dims@[0],
        forall|a: int| 0 <= a < dims@[0] ==> (#[trigger] r@[a])@.len() == dims@[1],
        forall|a: int, b: int|
            0 <= a < dims@[0] && 0 <= b < dims@[1] ==> (#[trigger] r@[a]@[b]) == particle@[a
                * dims@[1] + b],
{
    let rows = dims[0];
    let cols = dims[1];
    let mut reshaped_cluster: Vec<Vec<T>> = Vec::new();
    let mut i: usize = 0;
    let mut a: usize = 0;
    while a < rows
        invariant
            rows == dims@[0],
            cols == dims@[1],
            rows * cols <= particle@.len(),
            a <= rows,
            i == a * cols,
            reshaped_cluster@.len() == a,
            forall|x: int| 0 <= x < a ==> (#[trigger] reshaped_cluster@[x])@.len() == cols,
            forall|x: int, b: int|
                0 <= x < a && 0 <= b < cols ==> (#[trigger] reshaped_cluster@[x]@[b])
                    == particle@[x * cols + b],
        decreases rows - a,
    {
        assert((a + 1) * cols <= rows * cols) by (nonlinear_arith)
            requires
                a < rows,
        ;
        assert((a + 1) * cols == a * cols + cols) by (nonlinear_arith);
        let mut reshaped_molecule: Vec<T> = Vec::new();
        let mut b: usize = 0;
        while b < cols
            invariant
                rows * cols <= particle@.len(),
                a * cols + cols <= rows * cols,
                b <= cols,
                i == a * cols + b,
                reshaped_molecule@.len() == b,
                forall|c: int| 0 <= c < b ==> #[trigger] reshaped_molecule@[c] == particle@[a * cols + c],
            decreases cols - b,
        {
            reshaped_molecule.push(particle[i]);
            i = i + 1;
            b = b + 1;
        }
        let ghost before = reshaped_cluster@;
        reshaped_cluster.push(reshaped_molecule);
        proof {
            assert forall|x: int, c: int|
                0 <= x <= a && 0 <= c < cols implies (#[trigger] reshaped_cluster@[x]@[c])
                == particle@[x * cols + c] by {
                if x < a {
                    assert(reshaped_cluster@[x] == before[x]);
                    assert(before[x]@[c] == particle@[x * cols + c]);
                } else {
                    assert(reshaped_cluster@[x]@[c] == reshaped_molecule@[c]);
                }
            }
            assert forall|x: int| 0 <= x <= a implies (#[trigger] reshaped_cluster@[x])@.len()
                == cols by {
                if x < a {
                    assert(reshaped_cluster@[x] == before[x]);
                }
            }
        }
        a = a + 1;
    }
    reshaped_cluster
}

/// The flat dimension multiplies every dimension: the product of a shape
/// made of two parts is the product of the parts' products, a single
/// dimension is its own product, and no dimension at all gives 1.
pub proof fn lemma_dims_product_multiplies_all(a: Seq<usize>, b: Seq<usize>)
    ensures
        dims_product(a + b) == dims_product(a) * dims_product(b),
        forall|x: usize| #[trigger] dims_product(seq![x]) == x,
        dims_product(Seq::<usize>::empty()) == 1,
    decreases b.len(),
{
    assert forall|x: usize| #[trigger] dims_product(seq![x]) == x by {
        assert(seq![x].drop_last() =~= Seq::<usize>::empty());
        assert(dims_product(Seq::<usize>::empty()) == 1);
        assert(seq![x].last() == x);
        assert(dims_product(seq![x]) == dims_product(seq![x].drop_last()) * x);
    }
    if b.len() == 0 {
        assert(a + b =~= a);
    } else {
        let b0 = b.drop_last();
        lemma_dims_product_multiplies_all(a, b0);
        assert((a + b).drop_last() =~= a + b0);
        assert((a + b).last() == b.last());
        let pa = dims_product(a);
        let pb0 = dims_product(b0);
        let x = b.last() as int;
        assert(pa * pb0 * x == pa * (pb0 * x)) by (nonlinear_arith);
    }
}

} // verus!
