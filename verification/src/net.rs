//! The shared core of both network variants: a chain of weight
//! matrices, the dense forward pass with rectified interior layers, the
//! transparent forward pass that keeps every pre-activation, and the
//! whole-network and single-layer mutation drivers.

use crate::fixed::{fx_div, fx_div_spec};
use crate::matrix::{
    create_variant_stdrng, matrix_perturbed, spec_mat_vec, spec_relu_vec, Matrix,
};
use crate::rng::rand_index;
use vstd::prelude::*;

verus! {

/// Every matrix is well formed and consecutive matrices chain: the
/// output width (rows) of each is the input width (cols) of the next.
pub open spec fn conns_wf(mats: Seq<Matrix>) -> bool {
    &&& forall|i: int| 0 <= i < mats.len() ==> (#[trigger] mats[i]).wf()
    &&& forall|i: int| 0 <= i < mats.len() - 1 ==> (#[trigger] mats[i + 1]).cols == mats[i].rows
}

/// The forward pass: multiply by each matrix in order, rectifying after
/// every multiply except the last. With no matrices the input passes
/// through unchanged.
pub open spec fn spec_forward(mats: Seq<Matrix>, x: Seq<i64>) -> Seq<i64>
    decreases mats.len(),
{
    if mats.len() == 0 {
        x
    } else if mats.len() == 1 {
        spec_mat_vec(mats[0]@, x)
    } else {
        spec_forward(mats.drop_first(), spec_relu_vec(spec_mat_vec(mats[0]@, x)))
    }
}

/// The pre-activation of each layer in order: each entry is a matrix
/// product before rectification; the value fed onward is its rectified
/// image, except after the final matrix.
pub open spec fn spec_pre_acts(mats: Seq<Matrix>, x: Seq<i64>) -> Seq<Seq<i64>>
    decreases mats.len(),
{
    if mats.len() == 0 {
        Seq::empty()
    } else if mats.len() == 1 {
        seq![spec_mat_vec(mats[0]@, x)]
    } else {
        seq![spec_mat_vec(mats[0]@, x)] + spec_pre_acts(
            mats.drop_first(),
            spec_relu_vec(spec_mat_vec(mats[0]@, x)),
        )
    }
}

/// The transparent forward pass: the input, then every layer's
/// pre-activation value, ending with the final output.
pub open spec fn spec_trace(mats: Seq<Matrix>, x: Seq<i64>) -> Seq<Seq<i64>> {
    seq![x] + spec_pre_acts(mats, x)
}

/// The sum of all matrices' entry counts.
pub open spec fn spec_total_params(mats: Seq<Matrix>) -> int
    decreases mats.len(),
{
    if mats.len() == 0 {
        0
    } else {
        spec_total_params(mats.drop_last()) + mats.last().rows * mats.last().cols
    }
}

/// Dropping the first matrix of a well-formed chain leaves a well-formed
/// chain.
pub proof fn lemma_conns_wf_drop_first(mats: Seq<Matrix>)
    requires
        conns_wf(mats),
        mats.len() > 0,
    ensures
        conns_wf(mats.drop_first()),
{
    let rest = mats.drop_first();
    assert forall|i: int| 0 <= i < rest.len() implies (#[trigger] rest[i]).wf() by {
        assert(rest[i] == mats[i + 1]);
    }
    assert forall|i: int| 0 <= i < rest.len() - 1 implies (#[trigger] rest[i + 1]).cols
        == rest[i].rows by {
        assert(rest[i + 1] == mats[i + 2]);
        assert(rest[i] == mats[i + 1]);
    }
}

/// The width of the forward pass result: unchanged with no matrices,
/// else the row count of the final matrix.
pub proof fn lemma_forward_len(mats: Seq<Matrix>, x: Seq<i64>)
    requires
        conns_wf(mats),
        mats.len() > 0 ==> x.len() == mats[0].cols,
    ensures
        mats.len() == 0 ==> spec_forward(mats, x) == x,
        mats.len() > 0 ==> spec_forward(mats, x).len() == mats[mats.len() - 1].rows,
    decreases mats.len(),
{
    if mats.len() == 0 {
    } else if mats.len() == 1 {
        assert(spec_forward(mats, x) == spec_mat_vec(mats[0]@, x));
    } else {
        let y = spec_relu_vec(spec_mat_vec(mats[0]@, x));
        lemma_conns_wf_drop_first(mats);
        assert(y.len() == mats[0].rows);
        assert(mats.drop_first()[0] == mats[1]);
        lemma_forward_len(mats.drop_first(), y);
        assert(mats.drop_first()[mats.len() - 2] == mats[mats.len() - 1]);
    }
}

/// The trace ends with the forward-pass output, and holds one entry per
/// matrix after the leading input.
pub proof fn lemma_trace_last(mats: Seq<Matrix>, x: Seq<i64>)
    requires
        conns_wf(mats),
    ensures
        spec_trace(mats, x).len() == mats.len() + 1,
        spec_trace(mats, x)[0] == x,
        spec_trace(mats, x).last() == spec_forward(mats, x),
    decreases mats.len(),
{
    lemma_pre_acts_shape(mats, x);
    if mats.len() > 0 {
        assert(spec_trace(mats, x).last() == spec_pre_acts(mats, x).last());
    }
}

/// The pre-activation list holds one entry per matrix and ends with the
/// forward-pass output.
pub proof fn lemma_pre_acts_shape(mats: Seq<Matrix>, x: Seq<i64>)
    requires
        conns_wf(mats),
    ensures
        spec_pre_acts(mats, x).len() == mats.len(),
        mats.len() > 0 ==> spec_pre_acts(mats, x).last() == spec_forward(mats, x),
    decreases mats.len(),
{
    if mats.len() == 0 {
    } else if mats.len() == 1 {
    } else {
        let y = spec_relu_vec(spec_mat_vec(mats[0]@, x));
        lemma_conns_wf_drop_first(mats);
        lemma_pre_acts_shape(mats.drop_first(), y);
        assert(spec_pre_acts(mats, x).last() == spec_pre_acts(mats.drop_first(), y).last());
        assert(spec_forward(mats, x) == spec_forward(mats.drop_first(), y));
    }
}

/// An exact copy of a vector of scalars.
pub fn clone_vec_i64(v: &Vec<i64>) -> (out: Vec<i64>)
    ensures
        out@ == v@,
{
    let mut out: Vec<i64> = Vec::new();
    let mut i: usize = 0;
    while i < v.len()
        invariant
            i <= v@.len(),
            out@.len() == i,
            forall|j: int| 0 <= j < i ==> out@[j] == v@[j],
        decreases v@.len() - i,
    {
        out.push(v[i]);
        i = i + 1;
    }
    proof {
        assert(out@ =~= v@);
    }
    out
}

/// Runs an input vector through a chain of matrices: rectify after every
/// multiply but the last; with no matrices the input passes through.
pub fn forward(mats: &Vec<Matrix>, input: &Vec<i64>) -> (out: Vec<i64>)
    requires
        conns_wf(mats@),
        mats@.len() > 0 ==> input@.len() == mats@[0].cols,
    ensures
        out@ == spec_forward(mats@, input@),
{
    let n = mats.len();
    if n == 0 {
        return clone_vec_i64(input);
    }
    let mut cur: Vec<i64> = clone_vec_i64(input);
    let mut k: usize = 0;
    proof {
        assert(mats@.skip(0) =~= mats@);
    }
    while k < n - 1
        invariant
            conns_wf(mats@),
            n == mats@.len(),
            1 <= n,
            k < n,
            cur@.len() == mats@[k as int].cols,
            spec_forward(mats@, input@) == spec_forward(mats@.skip(k as int), cur@),
        decreases n - k,
    {
        let y = mats[k].mat_vec(&cur);
        let next = crate::matrix::relu_vec(&y);
        proof {
            let rest = mats@.skip(k as int);
            assert(rest.len() == n - k >= 2);
            assert(rest[0] == mats@[k as int]);
            assert(spec_forward(rest, cur@) == spec_forward(
                rest.drop_first(),
                spec_relu_vec(spec_mat_vec(mats@[k as int]@, cur@)),
            ));
            assert(rest.drop_first() =~= mats@.skip(k as int + 1));
            assert(mats@[k as int + 1].cols == mats@[k as int].rows);
        }
        cur = next;
        k = k + 1;
    }
    let out = mats[k].mat_vec(&cur);
    proof {
        let rest = mats@.skip(k as int);
        assert(rest.len() == 1);
        assert(rest[0] == mats@[k as int]);
        assert(spec_forward(rest, cur@) == spec_mat_vec(mats@[k as int]@, cur@));
    }
    out
}

/// Runs an input vector through a chain of matrices, returning the value
/// of every layer: the input, then each layer's pre-activation value
/// (before rectification, so a caller can see what each clamp removed),
/// ending with the final output.
pub fn forward_trace(mats: &Vec<Matrix>, input: &Vec<i64>) -> (trace: Vec<Vec<i64>>)
    requires
        conns_wf(mats@),
        mats@.len() > 0 ==> input@.len() == mats@[0].cols,
    ensures
        trace@.map_values(|v: Vec<i64>| v@) == spec_trace(mats@, input@),
{
    let n = mats.len();
    let mut trace: Vec<Vec<i64>> = Vec::new();
    trace.push(clone_vec_i64(input));
    proof {
        assert(trace@.map_values(|v: Vec<i64>| v@) =~= seq![input@]);
    }
    if n == 0 {
        proof {
            assert(spec_trace(mats@, input@) =~= seq![input@]);
        }
        return trace;
    }
    let mut cur: Vec<i64> = clone_vec_i64(input);
    let mut k: usize = 0;
    proof {
        assert(mats@.skip(0) =~= mats@);
        assert(trace@.map_values(|v: Vec<i64>| v@) + spec_pre_acts(mats@, input@) =~= spec_trace(
            mats@,
            input@,
        ));
    }
    while k < n - 1
        invariant
            conns_wf(mats@),
            n == mats@.len(),
            1 <= n,
            k < n,
            cur@.len() == mats@[k as int].cols,
            trace@.map_values(|v: Vec<i64>| v@) + spec_pre_acts(mats@.skip(k as int), cur@)
                =~= spec_trace(mats@, input@),
        decreases n - k,
    {
        let y = mats[k].mat_vec(&cur);
        let next = crate::matrix::relu_vec(&y);
        trace.push(y);
        proof {
            let rest = mats@.skip(k as int);
            assert(rest.len() == n - k >= 2);
            assert(rest[0] == mats@[k as int]);
            assert(spec_pre_acts(rest, cur@) == seq![spec_mat_vec(mats@[k as int]@, cur@)]
                + spec_pre_acts(
                rest.drop_first(),
                spec_relu_vec(spec_mat_vec(mats@[k as int]@, cur@)),
            ));
            assert(rest.drop_first() =~= mats@.skip(k as int + 1));
            assert(mats@[k as int + 1].cols == mats@[k as int].rows);
            assert(trace@.map_values(|v: Vec<i64>| v@) + spec_pre_acts(
                mats@.skip(k as int + 1),
                next@,
            ) =~= spec_trace(mats@, input@));
        }
        cur = next;
        k = k + 1;
    }
    let out = mats[k].mat_vec(&cur);
    trace.push(out);
    proof {
        let rest = mats@.skip(k as int);
        assert(rest.len() == 1);
        assert(rest[0] == mats@[k as int]);
        assert(spec_pre_acts(rest, cur@) == seq![spec_mat_vec(mats@[k as int]@, cur@)]);
        assert(trace@.map_values(|v: Vec<i64>| v@) =~= spec_trace(mats@, input@));
    }
    trace
}

/// Sums all matrices' entry counts. The count fits easily in 64 bits
/// because each matrix holds at most `MAX_PARAMS` entries.
pub fn total_params(mats: &Vec<Matrix>) -> (n: u64)
    requires
        conns_wf(mats@),
        mats@.len() <= 0x10000,
    ensures
        n == spec_total_params(mats@),
        n <= 0x4000_0000_0000_0000u64,
{
    let mut n: u64 = 0;
    let mut k: usize = 0;
    while k < mats.len()
        invariant
            conns_wf(mats@),
            mats@.len() <= 0x10000,
            k <= mats@.len(),
            n == spec_total_params(mats@.take(k as int)),
            n <= 0x4000_0000 * (k as int),
        decreases mats@.len() - k,
    {
        let len_k = mats[k].len();
        proof {
            assert(mats@.take(k as int + 1).drop_last() =~= mats@.take(k as int));
            assert(mats@.take(k as int + 1).last() == mats@[k as int]);
        }
        n = n + (len_k as u64);
        k = k + 1;
    }
    proof {
        assert(mats@.take(mats@.len() as int) =~= mats@);
    }
    n
}

/// Perturbs every matrix of a chain with the same effective intensity,
/// drawing all noise from the given generator.
pub fn variant_connections(
    rng: &mut rand::rngs::StdRng,
    mats: &Vec<Matrix>,
    eff_intensity: i64,
) -> (out: Vec<Matrix>)
    requires
        conns_wf(mats@),
    ensures
        out@.len() == mats@.len(),
        conns_wf(out@),
        forall|k: int|
            0 <= k < mats@.len() ==> (#[trigger] out@[k]).rows == mats@[k].rows && out@[k].cols
                == mats@[k].cols && matrix_perturbed(mats@[k]@, out@[k]@, eff_intensity as int),
        eff_intensity == 0 ==> forall|k: int|
            0 <= k < mats@.len() ==> (#[trigger] out@[k])@ == mats@[k]@,
{
    let mut out: Vec<Matrix> = Vec::new();
    let mut k: usize = 0;
    while k < mats.len()
        invariant
            conns_wf(mats@),
            k <= mats@.len(),
            out@.len() == k,
            forall|j: int|
                0 <= j < k ==> (#[trigger] out@[j]).wf() && out@[j].rows == mats@[j].rows
                    && out@[j].cols == mats@[j].cols && matrix_perturbed(
                    mats@[j]@,
                    out@[j]@,
                    eff_intensity as int,
                ),
            eff_intensity == 0 ==> forall|j: int|
                0 <= j < k ==> (#[trigger] out@[j])@ == mats@[j]@,
        decreases mats@.len() - k,
    {
        let m = create_variant_stdrng(rng, &mats[k], eff_intensity);
        out.push(m);
        k = k + 1;
    }
    proof {
        lemma_same_shape_conns_wf(mats@, out@);
    }
    out
}

/// Chooses one matrix uniformly at random, perturbs only it (with the
/// intensity scaled down by that matrix's own entry count plus one), and
/// copies every other matrix bit for bit.
pub fn layer_variant_connections(
    rng: &mut rand::rngs::StdRng,
    mats: &Vec<Matrix>,
    intensity: i64,
) -> (out: Vec<Matrix>)
    requires
        conns_wf(mats@),
        1 <= mats@.len() <= 0x10000,
    ensures
        out@.len() == mats@.len(),
        conns_wf(out@),
        forall|k: int|
            0 <= k < mats@.len() ==> (#[trigger] out@[k]).rows == mats@[k].rows && out@[k].cols
                == mats@[k].cols,
        exists|j: int|
            0 <= j < mats@.len() && matrix_perturbed(
                mats@[j]@,
                #[trigger] out@[j]@,
                fx_div_spec(intensity as int, 1 + mats@[j].rows * mats@[j].cols),
            ) && (forall|k: int| 0 <= k < mats@.len() && k != j ==> (#[trigger] out@[k])@ == mats@[k]@),
{
    let j = rand_index(rng, mats.len());
    let eff = fx_div(intensity, 1 + (mats[j].len() as i64));
    let mut out: Vec<Matrix> = Vec::new();
    let mut k: usize = 0;
    while k < mats.len()
        invariant
            conns_wf(mats@),
            1 <= mats@.len(),
            j < mats@.len(),
            eff == fx_div_spec(intensity as int, 1 + mats@[j as int].rows * mats@[j as int].cols),
            k <= mats@.len(),
            out@.len() == k,
            forall|i: int|
                0 <= i < k ==> (#[trigger] out@[i]).wf() && out@[i].rows == mats@[i].rows
                    && out@[i].cols == mats@[i].cols,
            forall|i: int| 0 <= i < k && i != j ==> (#[trigger] out@[i])@ == mats@[i]@,
            j < k ==> matrix_perturbed(mats@[j as int]@, out@[j as int]@, eff as int),
        decreases mats@.len() - k,
    {
        if k == j {
            let m = create_variant_stdrng(rng, &mats[k], eff);
            out.push(m);
        } else {
            let m = mats[k].duplicate();
            out.push(m);
        }
        k = k + 1;
    }
    proof {
        lemma_same_shape_conns_wf(mats@, out@);
        assert(matrix_perturbed(mats@[j as int]@, out@[j as int]@, eff as int));
    }
    out
}

/// A chain of well-formed matrices with the same shapes as a well-formed
/// chain is itself well formed.
proof fn lemma_same_shape_conns_wf(mats: Seq<Matrix>, out: Seq<Matrix>)
    requires
        conns_wf(mats),
        out.len() == mats.len(),
        forall|i: int| 0 <= i < out.len() ==> (#[trigger] out[i]).wf(),
        forall|i: int|
            0 <= i < out.len() ==> (#[trigger] out[i]).rows == mats[i].rows && out[i].cols
                == mats[i].cols,
    ensures
        conns_wf(out),
{
}


/// The forward pass depends only on the weights: two chains of the same
/// length whose matrices hold the same values give the same output on
/// every input. With a zero-intensity mutation the variant's weights
/// equal the source's, so its forward pass matches the original's
/// exactly on any input.
pub proof fn lemma_same_weights_same_output(a: Seq<Matrix>, b: Seq<Matrix>, x: Seq<i64>)
    requires
        a.len() == b.len(),
        forall|k: int| 0 <= k < a.len() ==> (#[trigger] a[k])@ == b[k]@,
    ensures
        spec_forward(a, x) == spec_forward(b, x),
        spec_trace(a, x) == spec_trace(b, x),
    decreases a.len(),
{
    if a.len() == 0 {
    } else {
        assert(a[0]@ == b[0]@);
        if a.len() == 1 {
        } else {
            let y = spec_relu_vec(spec_mat_vec(a[0]@, x));
            assert forall|k: int| 0 <= k < a.drop_first().len() implies (#[trigger] a.drop_first()[
                k
            ])@ == b.drop_first()[k]@ by {
                assert(a.drop_first()[k] == a[k + 1]);
                assert(b.drop_first()[k] == b[k + 1]);
            }
            lemma_same_weights_same_output(a.drop_first(), b.drop_first(), y);
        }
        assert(spec_pre_acts(a, x) == spec_pre_acts(b, x)) by {
            lemma_same_pre_acts(a, b, x);
        }
    }
}

/// The pre-activation trace also depends only on the weights.
proof fn lemma_same_pre_acts(a: Seq<Matrix>, b: Seq<Matrix>, x: Seq<i64>)
    requires
        a.len() == b.len(),
        forall|k: int| 0 <= k < a.len() ==> (#[trigger] a[k])@ == b[k]@,
    ensures
        spec_pre_acts(a, x) == spec_pre_acts(b, x),
    decreases a.len(),
{
    if a.len() <= 1 {
    } else {
        let y = spec_relu_vec(spec_mat_vec(a[0]@, x));
        assert forall|k: int| 0 <= k < a.drop_first().len() implies (#[trigger] a.drop_first()[k])@
            == b.drop_first()[k]@ by {
            assert(a.drop_first()[k] == a[k + 1]);
            assert(b.drop_first()[k] == b[k + 1]);
        }
        lemma_same_pre_acts(a.drop_first(), b.drop_first(), y);
    }
}

/// A vector of zeros of a given length.
pub open spec fn spec_zero_vec(n: int) -> Seq<i64> {
    Seq::new(n as nat, |i: int| 0i64)
}

/// The saturating dot product of an all-zero row with anything is zero.
proof fn lemma_dot_zero(w: Seq<i64>, x: Seq<i64>, n: int)
    requires
        forall|k: int| 0 <= k < n ==> #[trigger] w[k] == 0i64,
    ensures
        crate::matrix::spec_dot(w, x, n) == 0,
    decreases n,
{
    if n > 0 {
        lemma_dot_zero(w, x, n - 1);
        assert(w[n - 1] == 0i64);
        assert(0int * (x[n - 1] as int) == 0) by (nonlinear_arith);
        vstd::arithmetic::div_mod::lemma_div_of0(crate::fixed::FX_ONE as int);
    }
}

/// An all-zero matrix maps any vector to the zero vector.
proof fn lemma_mat_vec_zero(m: Matrix, x: Seq<i64>)
    requires
        m.wf(),
        x.len() == m.cols,
        m@ == crate::matrix::spec_zero_matrix(m.rows as int, m.cols as int),
    ensures
        spec_mat_vec(m@, x) == spec_zero_vec(m.rows as int),
    decreases 0int,
{
    assert forall|r: int| 0 <= r < m.rows implies spec_mat_vec(m@, x)[r] == 0i64 by {
        assert(m@[r] == crate::matrix::spec_zero_matrix(m.rows as int, m.cols as int)[r]);
        assert forall|k: int| 0 <= k < x.len() implies #[trigger] m@[r][k] == 0i64 by {
            assert(m@[r][k] == crate::matrix::spec_zero_matrix(m.rows as int, m.cols as int)[r][k]);
        }
        lemma_dot_zero(m@[r], x, x.len() as int);
    }
    assert(spec_mat_vec(m@, x) =~= spec_zero_vec(m.rows as int));
}

/// Forward-pass determinism on the zero network: a network with at
/// least one matrix whose weights are all zero maps every input to the
/// all-zero output vector.
pub proof fn lemma_forward_zero(mats: Seq<Matrix>, x: Seq<i64>)
    requires
        conns_wf(mats),
        mats.len() >= 1,
        x.len() == mats[0].cols,
        forall|k: int|
            0 <= k < mats.len() ==> (#[trigger] mats[k])@ == crate::matrix::spec_zero_matrix(
                mats[k].rows as int,
                mats[k].cols as int,
            ),
    ensures
        spec_forward(mats, x) == spec_zero_vec(mats[mats.len() - 1].rows as int),
    decreases mats.len(),
{
    lemma_mat_vec_zero(mats[0], x);
    if mats.len() == 1 {
    } else {
        let y0 = spec_mat_vec(mats[0]@, x);
        let y = spec_relu_vec(y0);
        assert(y =~= spec_zero_vec(mats[0].rows as int));
        lemma_conns_wf_drop_first(mats);
        assert forall|k: int| 0 <= k < mats.drop_first().len() implies (#[trigger] mats.drop_first()[
            k
        ])@ == crate::matrix::spec_zero_matrix(
            mats.drop_first()[k].rows as int,
            mats.drop_first()[k].cols as int,
        ) by {
            assert(mats.drop_first()[k] == mats[k + 1]);
        }
        assert(mats.drop_first()[0] == mats[1]);
        lemma_forward_zero(mats.drop_first(), y);
        assert(mats.drop_first()[mats.len() - 2] == mats[mats.len() - 1]);
    }
}

} // verus!
