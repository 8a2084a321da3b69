//! Runtime-sized weight matrices of fixed-point scalars, stored row
//! major, with the dense matrix-vector product and the element-wise
//! rectifier used by the forward pass, and the random perturbation
//! operator shared by every mutation strategy.

use crate::fixed::{fx_add, fx_add_spec, fx_mul, fx_mul_spec, FX_ONE};
use crate::noise::{infinite_map, spec_infinite_map};
use crate::rng::next_unit_sample;
use vstd::arithmetic::div_mod::{
    lemma_fundamental_div_mod, lemma_div_of0, lemma_mod_division_less_than_divisor,
    lemma_multiply_divide_lt,
};
use vstd::arithmetic::mul::lemma_mul_is_commutative;
use vstd::prelude::*;

verus! {

/// The largest number of entries a matrix may hold. A capacity limit,
/// not a design parameter: it keeps every parameter count comfortably
/// inside machine integer ranges.
pub const MAX_PARAMS: usize = 0x4000_0000;

/// A dense matrix of fixed-point weights, stored row major.
#[derive(Clone)]
pub struct Matrix {
    pub rows: usize,
    pub cols: usize,
    pub data: Vec<i64>,
}

impl View for Matrix {
    type V = Seq<Seq<i64>>;

    open spec fn view(&self) -> Seq<Seq<i64>> {
        Seq::new(
            self.rows as nat,
            |r: int| Seq::new(self.cols as nat, |c: int| self.data@[r * (self.cols as int) + c]),
        )
    }
}

impl Matrix {
    /// The storage matches the shape, and the shape is within capacity.
    pub open spec fn wf(self) -> bool {
        self.data.len() == self.rows * self.cols && self.rows * self.cols <= MAX_PARAMS
    }

    /// A matrix of the given shape with every weight zero.
    pub fn zeros(rows: usize, cols: usize) -> (m: Matrix)
        requires
            rows * cols <= MAX_PARAMS,
        ensures
            m.wf(),
            m.rows == rows,
            m.cols == cols,
            m@ == spec_zero_matrix(rows as int, cols as int),
    {
        let n: usize = rows * cols;
        let mut data: Vec<i64> = Vec::new();
        let mut i: usize = 0;
        while i < n
            invariant
                data@.len() == i <= n,
                forall|j: int| 0 <= j < i ==> data@[j] == 0i64,
            decreases n - i,
        {
            data.push(0i64);
            i = i + 1;
        }
        let m = Matrix { rows, cols, data };
        proof {
            assert forall|r: int| 0 <= r < rows implies m@[r] =~= spec_zero_matrix(
                rows as int,
                cols as int,
            )[r] by {
                assert forall|c: int| 0 <= c < cols implies m@[r][c] == 0i64 by {
                    lemma_flat_index(r, c, rows as int, cols as int);
                }
            }
            assert(m@ =~= spec_zero_matrix(rows as int, cols as int));
        }
        m
    }

    /// The weight at a row and column.
    pub fn get(&self, r: usize, c: usize) -> (w: i64)
        requires
            self.wf(),
            r < self.rows,
            c < self.cols,
        ensures
            w == self@[r as int][c as int],
    {
        proof {
            lemma_flat_index(r as int, c as int, self.rows as int, self.cols as int);
        }
        self.data[r * self.cols + c]
    }

    /// The number of weights, `rows * cols`.
    pub fn len(&self) -> (n: usize)
        requires
            self.wf(),
        ensures
            n == self.rows * self.cols,
    {
        self.rows * self.cols
    }

    /// An exact copy of this matrix.
    pub fn duplicate(&self) -> (m: Matrix)
        requires
            self.wf(),
        ensures
            m.wf(),
            m.rows == self.rows,
            m.cols == self.cols,
            m@ == self@,
            m.data@ == self.data@,
    {
        let m = Matrix { rows: self.rows, cols: self.cols, data: self.data.clone() };
        proof {
            assert(m.data@ =~= self.data@);
            lemma_same_data_same_view(*self, m);
        }
        m
    }

    /// Whether two matrices have the same shape and the same weights.
    pub fn equals(&self, other: &Matrix) -> (r: bool)
        requires
            self.wf(),
            other.wf(),
        ensures
            r == (self.rows == other.rows && self.cols == other.cols && self@ == other@),
    {
        if self.rows != other.rows || self.cols != other.cols {
            return false;
        }
        let n: usize = self.rows * self.cols;
        let mut i: usize = 0;
        while i < n
            invariant
                self.wf(),
                other.wf(),
                self.rows == other.rows,
                self.cols == other.cols,
                n == self.rows * self.cols,
                i <= n,
                forall|j: int| 0 <= j < i ==> self.data@[j] == other.data@[j],
            decreases n - i,
        {
            if self.data[i] != other.data[i] {
                proof {
                    let cols = self.cols as int;
                    let r = i as int / cols;
                    let c = i as int % cols;
                    if cols == 0 {
                        assert(self.rows * self.cols == 0);
                        assert(false);
                    }
                    lemma_fundamental_div_mod(i as int, cols);
                    lemma_mod_division_less_than_divisor(i as int, cols);
                    lemma_mul_is_commutative(self.rows as int, cols);
                    lemma_multiply_divide_lt(i as int, cols, self.rows as int);
                    lemma_mul_is_commutative(r, cols);
                    assert(r * cols + c == i as int);
                    assert(self@[r][c] == self.data@[i as int]);
                    assert(other@[r][c] == other.data@[i as int]);
                }
                return false;
            }
            i = i + 1;
        }
        proof {
            assert(self.data@ =~= other.data@);
            lemma_same_data_same_view(*self, *other);
        }
        true
    }

    /// The product of this matrix with a column vector, each entry the
    /// saturating fixed-point dot product of a row with the vector.
    pub fn mat_vec(&self, v: &Vec<i64>) -> (out: Vec<i64>)
        requires
            self.wf(),
            v@.len() == self.cols,
        ensures
            out@ == spec_mat_vec(self@, v@),
    {
        let mut out: Vec<i64> = Vec::new();
        let mut r: usize = 0;
        while r < self.rows
            invariant
                self.wf(),
                v@.len() == self.cols,
                r <= self.rows,
                out@.len() == r,
                forall|k: int|
                    0 <= k < r ==> out@[k] as int == spec_dot(self@[k], v@, self.cols as int),
            decreases self.rows - r,
        {
            let mut acc: i64 = 0;
            let mut c: usize = 0;
            while c < self.cols
                invariant
                    self.wf(),
                    v@.len() == self.cols,
                    r < self.rows,
                    c <= self.cols,
                    acc as int == spec_dot(self@[r as int], v@, c as int),
                decreases self.cols - c,
            {
                let w = self.get(r, c);
                acc = fx_add(acc, fx_mul(w, v[c]));
                c = c + 1;
            }
            out.push(acc);
            r = r + 1;
        }
        proof {
            assert(out@ =~= spec_mat_vec(self@, v@));
        }
        out
    }
}

/// Assembles a matrix from its rows, each of the same width.
pub fn matrix_from_rows(rows_vals: Vec<Vec<i64>>, cols: usize) -> (m: Matrix)
    requires
        rows_vals@.len() * cols <= MAX_PARAMS,
        forall|q: int| 0 <= q < rows_vals@.len() ==> (#[trigger] rows_vals@[q])@.len() == cols,
    ensures
        m.wf(),
        m.rows == rows_vals@.len(),
        m.cols == cols,
        m@ == rows_vals@.map_values(|v: Vec<i64>| v@),
{
    let nrows = rows_vals.len();
    let mut data: Vec<i64> = Vec::new();
    let mut q: usize = 0;
    while q < nrows
        invariant
            nrows == rows_vals@.len(),
            nrows * cols <= MAX_PARAMS,
            forall|t: int| 0 <= t < nrows ==> (#[trigger] rows_vals@[t])@.len() == cols,
            q <= nrows,
            data@.len() == q * cols,
            forall|t: int, c: int|
                0 <= t < q && 0 <= c < cols ==> data@[t * cols + c] == (#[trigger] rows_vals@[t]@[c]),
        decreases nrows - q,
    {
        proof {
            assert((q + 1) * cols == q * cols + cols) by (nonlinear_arith);
            assert((q + 1) * cols <= nrows * cols) by (nonlinear_arith)
                requires
                    q + 1 <= nrows,
                    cols >= 0,
            ;
        }
        let mut c: usize = 0;
        while c < cols
            invariant
                nrows == rows_vals@.len(),
                nrows * cols <= MAX_PARAMS,
                forall|t: int| 0 <= t < nrows ==> (#[trigger] rows_vals@[t])@.len() == cols,
                q < nrows,
                c <= cols,
                q * cols + cols <= nrows * cols,
                data@.len() == q * cols + c,
                forall|t: int, cc: int|
                    0 <= t < q && 0 <= cc < cols ==> data@[t * cols + cc] == (#[trigger] rows_vals@[t]@[cc]),
                forall|cc: int| 0 <= cc < c ==> data@[q * cols + cc] == (#[trigger] rows_vals@[q as int]@[cc]),
            decreases cols - c,
        {
            let row_ref = &rows_vals[q];
            data.push(row_ref[c]);
            proof {
                assert forall|t: int, cc: int|
                    0 <= t < q && 0 <= cc < cols implies data@[t * cols + cc] == (
                #[trigger] rows_vals@[t]@[cc]) by {
                    lemma_flat_index(t, cc, q as int, cols as int);
                }
            }
            c = c + 1;
        }
        q = q + 1;
    }
    let m = Matrix { rows: nrows, cols, data };
    proof {
        let target = rows_vals@.map_values(|v: Vec<i64>| v@);
        assert forall|r: int| 0 <= r < nrows implies m@[r] =~= target[r] by {
            assert forall|c: int| 0 <= c < cols implies m@[r][c] == target[r][c] by {
                lemma_flat_index(r, c, nrows as int, cols as int);
            }
        }
        assert(m@ =~= target);
    }
    m
}

/// The all-zero matrix of a given shape, as a specification value.
pub open spec fn spec_zero_matrix(rows: int, cols: int) -> Seq<Seq<i64>> {
    Seq::new(rows as nat, |r: int| Seq::new(cols as nat, |c: int| 0i64))
}

/// The saturating fixed-point dot product of the first `n` entries.
pub open spec fn spec_dot(w: Seq<i64>, x: Seq<i64>, n: int) -> int
    decreases n,
{
    if n <= 0 {
        0
    } else {
        fx_add_spec(spec_dot(w, x, n - 1), fx_mul_spec(w[n - 1] as int, x[n - 1] as int))
    }
}

/// The matrix-vector product, row by row.
pub open spec fn spec_mat_vec(m: Seq<Seq<i64>>, x: Seq<i64>) -> Seq<i64> {
    Seq::new(m.len(), |r: int| spec_dot(m[r], x, x.len() as int) as i64)
}

/// The rectifier: negative values clamp to zero.
pub open spec fn spec_relu(x: i64) -> i64 {
    if x < 0i64 {
        0i64
    } else {
        x
    }
}

/// The rectifier applied to each entry of a vector.
pub open spec fn spec_relu_vec(v: Seq<i64>) -> Seq<i64> {
    Seq::new(v.len(), |i: int| spec_relu(v[i]))
}

/// Clamps every negative entry of a vector to zero.
pub fn relu_vec(v: &Vec<i64>) -> (out: Vec<i64>)
    ensures
        out@ == spec_relu_vec(v@),
{
    let mut out: Vec<i64> = Vec::new();
    let mut i: usize = 0;
    while i < v.len()
        invariant
            i <= v@.len(),
            out@.len() == i,
            forall|j: int| 0 <= j < i ==> out@[j] == spec_relu(v@[j]),
        decreases v@.len() - i,
    {
        let x = v[i];
        if x < 0 {
            out.push(0i64);
        } else {
            out.push(x);
        }
        i = i + 1;
    }
    proof {
        assert(out@ =~= spec_relu_vec(v@));
    }
    out
}

/// A single weight of the result is the original weight plus the
/// intensity-scaled image of some uniform sample under the noise map.
pub open spec fn entry_perturbed(o: i64, n: i64, intensity: int) -> bool {
    exists|u: int|
        0 <= u < FX_ONE && n as int == fx_add_spec(
            o as int,
            fx_mul_spec(intensity, spec_infinite_map(u)),
        )
}

/// Every weight of `res` is a perturbation of the matching weight of
/// `orig`, and the shapes agree.
pub open spec fn matrix_perturbed(orig: Seq<Seq<i64>>, res: Seq<Seq<i64>>, intensity: int) -> bool {
    &&& res.len() == orig.len()
    &&& forall|r: int|
        0 <= r < orig.len() ==> (#[trigger] res[r]).len() == orig[r].len()
    &&& forall|r: int, c: int|
        0 <= r < orig.len() && 0 <= c < orig[r].len() ==> entry_perturbed(
            orig[r][c],
            #[trigger] res[r][c],
            intensity,
        )
}

/// Flat index of the entry at a row and column of a row-major matrix.
pub proof fn lemma_flat_index(r: int, c: int, rows: int, cols: int)
    requires
        0 <= r < rows,
        0 <= c < cols,
    ensures
        0 <= r * cols + c < rows * cols,
{
    assert(0 <= r * cols + c < rows * cols) by (nonlinear_arith)
        requires
            0 <= r < rows,
            0 <= c < cols,
    ;
}

/// Two well-formed matrices of the same shape with the same storage have
/// the same view.
pub proof fn lemma_same_data_same_view(a: Matrix, b: Matrix)
    requires
        a.wf(),
        b.wf(),
        a.rows == b.rows,
        a.cols == b.cols,
        a.data@ == b.data@,
    ensures
        a@ == b@,
{
    assert forall|r: int| 0 <= r < a.rows implies a@[r] =~= b@[r] by {}
    assert(a@ =~= b@);
}

/// Creates a random variation of a matrix, drawing its noise from a
/// freshly and unpredictably seeded generator. Every weight moves by
/// `intensity` times a long-tailed noise value.
pub fn create_variant(original: &Matrix, intensity: i64) -> (m: Matrix)
    requires
        original.wf(),
    ensures
        m.wf(),
        m.rows == original.rows,
        m.cols == original.cols,
        matrix_perturbed(original@, m@, intensity as int),
        intensity == 0 ==> m@ == original@,
{
    let mut rng = crate::rng::seed_rng(crate::rng::random_u64());
    create_variant_stdrng(&mut rng, original, intensity)
}

/// Creates a random variation of a matrix using a provided generator.
/// Every weight moves by `intensity` times a long-tailed noise value, so
/// small changes are likely but arbitrarily large ones stay possible.
/// An intensity of zero leaves every weight exactly unchanged.
pub fn create_variant_stdrng(
    rng: &mut rand::rngs::StdRng,
    original: &Matrix,
    intensity: i64,
) -> (m: Matrix)
    requires
        original.wf(),
    ensures
        m.wf(),
        m.rows == original.rows,
        m.cols == original.cols,
        matrix_perturbed(original@, m@, intensity as int),
        intensity == 0 ==> m@ == original@,
{
    let n: usize = original.len();
    let mut data: Vec<i64> = Vec::new();
    let mut i: usize = 0;
    while i < n
        invariant
            original.wf(),
            n == original.rows * original.cols,
            i <= n,
            data@.len() == i,
            forall|j: int|
                0 <= j < i ==> entry_perturbed(original.data@[j], #[trigger] data@[j], intensity as int),
            intensity == 0 ==> forall|j: int| 0 <= j < i ==> data@[j] == original.data@[j],
        decreases n - i,
    {
        let u: i64 = next_unit_sample(rng);
        let noise: i64 = infinite_map(u);
        let delta: i64 = fx_mul(intensity, noise);
        let w: i64 = fx_add(original.data[i], delta);
        proof {
            if intensity == 0 {
                assert(0int * (spec_infinite_map(u as int)) == 0) by (nonlinear_arith);
                lemma_div_of0(FX_ONE as int);
                assert(delta == 0);
                assert(w == original.data@[i as int]);
            }
            assert(0 <= u < FX_ONE && w as int == fx_add_spec(
                original.data@[i as int] as int,
                fx_mul_spec(intensity as int, spec_infinite_map(u as int)),
            ));
        }
        data.push(w);
        i = i + 1;
    }
    let m = Matrix { rows: original.rows, cols: original.cols, data };
    proof {
        assert forall|r: int, c: int|
            0 <= r < original@.len() && 0 <= c < original@[r].len() implies entry_perturbed(
            original@[r][c],
            #[trigger] m@[r][c],
            intensity as int,
        ) by {
            lemma_flat_index(r, c, original.rows as int, original.cols as int);
            assert(original@[r][c] == original.data@[r * (original.cols as int) + c]);
            assert(m@[r][c] == m.data@[r * (original.cols as int) + c]);
        }
        if intensity == 0 {
            assert(m.data@ =~= original.data@);
            lemma_same_data_same_view(*original, m);
        }
    }
    m
}

} // verus!
