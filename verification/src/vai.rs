//! The fixed-shape network: input width, output width, hidden width and
//! the number of extra interior layers are compile-time constants, so
//! every matrix shape is pinned by the type and shape errors cannot
//! arise at run time.

use crate::codec::{
    lemma_read_seq_of_written, lines_view, shapes_of, spec_matrix_lines, spec_net_lines_fixed,
    spec_read_seq, views_of,
};
use crate::error::VaiError;
use crate::fixed::fx_div_spec;
use crate::matrix::{matrix_perturbed, spec_zero_matrix, Matrix};
use crate::net::{
    conns_wf, forward, forward_trace, layer_variant_connections, lemma_forward_len,
    lemma_trace_last, spec_forward, spec_total_params, spec_trace, total_params,
    variant_connections,
};
use crate::rng::{random_u64, seed_rng};
use vstd::arithmetic::div_mod::lemma_div_of0;
use vstd::prelude::*;

pub use crate::codec::{read_matrix, write_matrix};
pub use crate::matrix::{create_variant, create_variant_stdrng};

verus! {

/// A feed-forward network whose shape is fixed by its type parameters.
/// * `I`: number of inputs (a caller usually reserves one for a bias).
/// * `O`: number of outputs.
/// * `C`: width of (number of nodes in) each hidden layer.
/// * `EXTRA_LAYERS`: hidden layers beyond the one that is always there.
///
/// `connections` holds the weight matrices in application order: the
/// input-facing matrix (`C x I`), each interior matrix (`C x C`), and
/// the output-facing matrix (`O x C`). The network owns the generator
/// that feeds its mutation operators.
#[derive(Clone)]
pub struct VAI<const I: usize, const O: usize, const C: usize, const EXTRA_LAYERS: usize> {
    pub rng: rand::rngs::StdRng,
    pub connections: Vec<Matrix>,
}

impl<const I: usize, const O: usize, const C: usize, const EXTRA_LAYERS: usize> VAI<
    I,
    O,
    C,
    EXTRA_LAYERS,
> {
    /// The shape the type prescribes fits the capacity limits.
    pub open spec fn shape_ok() -> bool {
        &&& I * C <= crate::matrix::MAX_PARAMS
        &&& C * C <= crate::matrix::MAX_PARAMS
        &&& O * C <= crate::matrix::MAX_PARAMS
        &&& EXTRA_LAYERS + 2 <= 0x10000
    }

    /// The matrices chain and have exactly the shapes the type
    /// prescribes.
    pub open spec fn wf(self) -> bool {
        &&& self.connections@.len() == EXTRA_LAYERS + 2
        &&& self.connections@.len() <= 0x10000
        &&& conns_wf(self.connections@)
        &&& self.connections@[0].rows == C
        &&& self.connections@[0].cols == I
        &&& forall|k: int|
            1 <= k <= EXTRA_LAYERS ==> (#[trigger] self.connections@[k]).rows == C
                && self.connections@[k].cols == C
        &&& self.connections@[EXTRA_LAYERS as int + 1].rows == O
        &&& self.connections@[EXTRA_LAYERS as int + 1].cols == C
    }

    /// Every weight of every matrix is zero.
    pub open spec fn is_zero(self) -> bool {
        forall|k: int|
            0 <= k < self.connections@.len() ==> (#[trigger] self.connections@[k])@
                == spec_zero_matrix(
                self.connections@[k].rows as int,
                self.connections@[k].cols as int,
            )
    }

    /// Creates a network with zeros for all connection weights and a
    /// randomly seeded generator.
    pub fn new() -> (r: Self)
        requires
            Self::shape_ok(),
        ensures
            r.wf(),
            r.is_zero(),
    {
        Self::new_deterministic(random_u64())
    }

    /// Creates a network with zeros for all connection weights, seeding
    /// the generator with the given value for reproducibility.
    pub fn new_deterministic(seed: u64) -> (r: Self)
        requires
            Self::shape_ok(),
        ensures
            r.wf(),
            r.is_zero(),
    {
        let mut connections: Vec<Matrix> = Vec::new();
        connections.push(Matrix::zeros(C, I));
        let mut k: usize = 0;
        while k < EXTRA_LAYERS
            invariant
                I * C <= crate::matrix::MAX_PARAMS,
                C * C <= crate::matrix::MAX_PARAMS,
                k <= EXTRA_LAYERS,
                connections@.len() == k + 1,
                connections@[0].wf(),
                connections@[0].rows == C,
                connections@[0].cols == I,
                connections@[0]@ == spec_zero_matrix(C as int, I as int),
                forall|j: int|
                    1 <= j <= k ==> (#[trigger] connections@[j]).wf() && connections@[j].rows == C
                        && connections@[j].cols == C && connections@[j]@ == spec_zero_matrix(
                        C as int,
                        C as int,
                    ),
            decreases EXTRA_LAYERS - k,
        {
            connections.push(Matrix::zeros(C, C));
            k = k + 1;
        }
        connections.push(Matrix::zeros(O, C));
        let r = VAI { rng: seed_rng(seed), connections };
        proof {
            assert forall|i: int| 0 <= i < r.connections@.len() - 1 implies (#[trigger] r
                .connections@[i + 1]).cols == r.connections@[i].rows by {}
        }
        r
    }

    /// An exact copy of this network: same weights, and a duplicate of
    /// the generator state, so copy and original produce identical
    /// mutations until one of them mutates.
    pub fn duplicate(&self) -> (r: Self)
        requires
            self.wf(),
        ensures
            r.wf(),
            r.connections@.len() == self.connections@.len(),
            forall|k: int|
                0 <= k < self.connections@.len() ==> (#[trigger] r.connections@[k]).rows
                    == self.connections@[k].rows && r.connections@[k].cols
                    == self.connections@[k].cols && r.connections@[k]@ == self.connections@[k]@,
    {
        let mut connections: Vec<Matrix> = Vec::new();
        let mut k: usize = 0;
        while k < self.connections.len()
            invariant
                self.wf(),
                k <= self.connections@.len(),
                connections@.len() == k,
                forall|j: int|
                    0 <= j < k ==> (#[trigger] connections@[j]).wf() && connections@[j].rows
                        == self.connections@[j].rows && connections@[j].cols
                        == self.connections@[j].cols && connections@[j]@ == self.connections@[j]@,
            decreases self.connections@.len() - k,
        {
            connections.push(self.connections[k].duplicate());
            k = k + 1;
        }
        VAI { rng: self.rng.clone(), connections }
    }

    /// Creates a random variant of this network.
    /// * `intensity` - scale of the added randomness (fixed point).
    ///
    /// Every weight of every matrix is perturbed. To keep variation
    /// consistent across network sizes, the intensity is divided by one
    /// plus the total connection count of the network before being
    /// applied, uniformly for every matrix. The source network's
    /// weights are untouched; its generator advances.
    pub fn create_variant(&mut self, intensity: i64) -> (r: Self)
        requires
            old(self).wf(),
        ensures
            final(self).wf(),
            final(self).connections@ == old(self).connections@,
            r.wf(),
            forall|k: int|
                0 <= k < old(self).connections@.len() ==> matrix_perturbed(
                    old(self).connections@[k]@,
                    (#[trigger] r.connections@[k])@,
                    fx_div_spec(intensity as int, 1 + spec_total_params(old(self).connections@)),
                ),
            intensity == 0 ==> forall|k: int|
                0 <= k < old(self).connections@.len() ==> (#[trigger] r.connections@[k])@ == old(
                    self,
                ).connections@[k]@,
            r.connections@.len() == old(self).connections@.len(),
            forall|k: int|
                0 <= k < old(self).connections@.len() ==> (#[trigger] r.connections@[k]).rows
                    == old(self).connections@[k].rows && r.connections@[k].cols == old(
                    self,
                ).connections@[k].cols,
    {
        let result_rng = self.rng.clone();
        let total = total_params(&self.connections);
        let eff = crate::fixed::fx_div(intensity, 1 + (total as i64));
        proof {
            if intensity == 0 {
                lemma_div_of0(1 + spec_total_params(self.connections@));
            }
        }
        let connections = variant_connections(&mut self.rng, &self.connections, eff);
        VAI { rng: result_rng, connections }
    }

    /// Creates a random variant of this network that changes exactly one
    /// matrix, chosen uniformly at random among the input-facing matrix,
    /// each interior matrix, and the output-facing matrix. The intensity
    /// is divided by one plus that matrix's own connection count. Every
    /// other matrix is copied bit for bit.
    pub fn create_layer_variant(&mut self, intensity: i64) -> (r: Self)
        requires
            old(self).wf(),
        ensures
            final(self).wf(),
            final(self).connections@ == old(self).connections@,
            r.wf(),
            r.connections@.len() == old(self).connections@.len(),
            exists|j: int|
                0 <= j < old(self).connections@.len() && matrix_perturbed(
                    old(self).connections@[j]@,
                    (#[trigger] r.connections@[j])@,
                    fx_div_spec(
                        intensity as int,
                        1 + old(self).connections@[j].rows * old(self).connections@[j].cols,
                    ),
                ) && (forall|k: int|
                    0 <= k < old(self).connections@.len() && k != j
                        ==> (#[trigger] r.connections@[k])@ == old(self).connections@[k]@),
    {
        let result_rng = self.rng.clone();
        let connections = layer_variant_connections(&mut self.rng, &self.connections, intensity);
        let r = VAI { rng: result_rng, connections };
        proof {
            let mats = old(self).connections@;
            let j = choose|j: int|
                0 <= j < mats.len() && matrix_perturbed(
                    mats[j]@,
                    (#[trigger] r.connections@[j])@,
                    fx_div_spec(intensity as int, 1 + mats[j].rows * mats[j].cols),
                ) && (forall|k: int|
                    0 <= k < mats.len() && k != j ==> (#[trigger] r.connections@[k])@ == mats[k]@);
            assert(0 <= j < mats.len() && matrix_perturbed(
                mats[j]@,
                r.connections@[j]@,
                fx_div_spec(intensity as int, 1 + mats[j].rows * mats[j].cols),
            ));
        }
        r
    }

    /// Runs an input vector through the network: each layer multiplies
    /// and rectifies, except the output-facing layer, which only
    /// multiplies.
    /// * `inputs` - the inputs; one of them should be a constant bias.
    pub fn process(&self, inputs: &Vec<i64>) -> (out: Vec<i64>)
        requires
            self.wf(),
            inputs@.len() == I,
        ensures
            out@ == spec_forward(self.connections@, inputs@),
            out@.len() == O,
    {
        let out = forward(&self.connections, inputs);
        proof {
            lemma_forward_len(self.connections@, inputs@);
        }
        out
    }

    /// Runs an input slice through the network.
    /// * `inputs` - the inputs; one of them should be a constant bias.
    pub fn process_slice(&self, inputs: &[i64]) -> (out: Vec<i64>)
        requires
            self.wf(),
            inputs@.len() == I,
        ensures
            out@ == spec_forward(self.connections@, inputs@),
            out@.len() == O,
    {
        let v = crate::codec::slice_to_vec(inputs);
        self.process(&v)
    }

    /// Runs an input vector through the network and returns the value of
    /// every node layer: the input, each layer's value *before*
    /// rectification (so a caller sees what each clamp removed), ending
    /// with the final output.
    pub fn process_transparent(&self, inputs: &Vec<i64>) -> (trace: Vec<Vec<i64>>)
        requires
            self.wf(),
            inputs@.len() == I,
        ensures
            trace@.map_values(|v: Vec<i64>| v@) == spec_trace(self.connections@, inputs@),
            trace@.len() == EXTRA_LAYERS + 3,
            trace@[0]@ == inputs@,
            trace@.last()@ == spec_forward(self.connections@, inputs@),
    {
        let trace = forward_trace(&self.connections, inputs);
        proof {
            lemma_trace_last(self.connections@, inputs@);
            let views = trace@.map_values(|v: Vec<i64>| v@);
            assert(trace@[0]@ == views[0]);
            assert(trace@.last()@ == views.last());
        }
        trace
    }

    /// The shape of each matrix in order, as the type prescribes it.
    pub open spec fn spec_shapes() -> Seq<(int, int)> {
        seq![(C as int, I as int)] + Seq::new(
            EXTRA_LAYERS as nat,
            |k: int| (C as int, C as int),
        ) + seq![(O as int, C as int)]
    }

    /// Writes the network as lines of text: the input-facing, interior,
    /// and output-facing matrices in order, each in the row/blank-line
    /// format of [`crate::codec::write_matrix`]. Shapes are implicit:
    /// the reader must already know them.
    pub fn write(&self) -> (lines: Vec<Vec<u8>>)
        requires
            self.wf(),
        ensures
            lines_view(lines@) == spec_net_lines_fixed(self.connections@),
    {
        let mut out: Vec<Vec<u8>> = Vec::new();
        let mut k: usize = 0;
        proof {
            assert(self.connections@.skip(0) =~= self.connections@);
            assert(lines_view(out@) + spec_net_lines_fixed(self.connections@) =~= spec_net_lines_fixed(
                self.connections@,
            ));
        }
        while k < self.connections.len()
            invariant
                self.wf(),
                k <= self.connections@.len(),
                lines_view(out@) + spec_net_lines_fixed(self.connections@.skip(k as int))
                    =~= spec_net_lines_fixed(self.connections@),
            decreases self.connections@.len() - k,
        {
            crate::codec::write_matrix(&self.connections[k], &mut out);
            proof {
                let rest = self.connections@.skip(k as int);
                assert(rest[0] == self.connections@[k as int]);
                assert(rest.drop_first() =~= self.connections@.skip(k as int + 1));
                assert(spec_net_lines_fixed(rest) == spec_matrix_lines(rest[0]@)
                    + spec_net_lines_fixed(rest.drop_first()));
                assert(lines_view(out@) + spec_net_lines_fixed(self.connections@.skip(k as int + 1))
                    =~= spec_net_lines_fixed(self.connections@));
            }
            k = k + 1;
        }
        proof {
            assert(self.connections@.skip(self.connections@.len() as int)
                =~= Seq::<crate::matrix::Matrix>::empty());
            assert(lines_view(out@) =~= spec_net_lines_fixed(self.connections@));
        }
        out
    }

    /// Reads a network from lines of text holding its matrices in order
    /// in the fixed format, with the shapes the type prescribes. The
    /// result owns a freshly and unpredictably seeded generator. Fails
    /// with a format error exactly when the matrices cannot be read;
    /// nothing is partially built on failure.
    pub fn read(lines: &Vec<Vec<u8>>) -> (r: Result<Self, VaiError>)
        requires
            Self::shape_ok(),
        ensures
            (match r {
                Ok(v) => (match spec_read_seq(lines_view(lines@), 0, Self::spec_shapes()) {
                    Some(tp) => {
                        &&& v.wf()
                        &&& tp.0.len() == EXTRA_LAYERS + 2
                        &&& forall|k: int|
                            0 <= k < tp.0.len() ==> (#[trigger] v.connections@[k])@ == tp.0[k]
                    },
                    None => false,
                }),
                Err(e) => {
                    &&& spec_read_seq(lines_view(lines@), 0, Self::spec_shapes()) is None
                    &&& e == VaiError::FormatError
                },
            }),
    {
        let ghost shapes = Self::spec_shapes();
        let ghost lv = lines_view(lines@);
        let total: usize = EXTRA_LAYERS + 2;
        let mut connections: Vec<Matrix> = Vec::new();
        let mut pos: usize = 0;
        let mut k: usize = 0;
        proof {
            assert(shapes.len() == total);
            assert(shapes.skip(0) =~= shapes);
            match spec_read_seq(lv, 0, shapes) {
                Some(tp) => {
                    assert(Seq::<Seq<Seq<i64>>>::empty() + tp.0 =~= tp.0);
                    assert(connections@.map_values(|m: Matrix| m@) =~= Seq::<Seq<Seq<i64>>>::empty());
                },
                None => {},
            }
        }
        while k < total
            invariant
                Self::shape_ok(),
                shapes == Self::spec_shapes(),
                lv == lines_view(lines@),
                total == EXTRA_LAYERS + 2,
                k <= total,
                connections@.len() == k,
                forall|j: int|
                    0 <= j < k ==> (#[trigger] connections@[j]).wf() && connections@[j].rows as int
                        == shapes[j].0 && connections@[j].cols as int == shapes[j].1,
                (match spec_read_seq(lv, pos as int, shapes.skip(k as int)) {
                    Some(tp) => spec_read_seq(lv, 0, shapes) == Some(
                        (connections@.map_values(|m: Matrix| m@) + tp.0, tp.1),
                    ),
                    None => spec_read_seq(lv, 0, shapes) is None,
                }),
            decreases total - k,
        {
            let rows_k: usize = if k == 0 {
                C
            } else if k <= EXTRA_LAYERS {
                C
            } else {
                O
            };
            let cols_k: usize = if k == 0 {
                I
            } else {
                C
            };
            proof {
                let a = seq![(C as int, I as int)];
                let b = Seq::new(EXTRA_LAYERS as nat, |t: int| (C as int, C as int));
                let cc = seq![(O as int, C as int)];
                assert(shapes == a + b + cc);
                if k == 0 {
                    assert(shapes[0] == (a + b)[0]);
                    assert((a + b)[0] == a[0]);
                } else if k <= EXTRA_LAYERS {
                    assert(shapes[k as int] == (a + b)[k as int]);
                    assert((a + b)[k as int] == b[k as int - 1]);
                } else {
                    assert(shapes[k as int] == cc[0]);
                }
                assert(shapes[k as int] == (rows_k as int, cols_k as int));
                assert((rows_k as int) * (cols_k as int) == (cols_k as int) * (rows_k as int))
                    by (nonlinear_arith);
                assert(rows_k * cols_k <= crate::matrix::MAX_PARAMS);
            }
            match crate::codec::read_matrix(lines, pos, rows_k, cols_k) {
                Ok(pair) => {
                    let (m, next) = pair;
                    proof {
                        let rest_shapes = shapes.skip(k as int);
                        assert(rest_shapes[0] == shapes[k as int]);
                        assert(rest_shapes.drop_first() =~= shapes.skip(k as int + 1));
                        match spec_read_seq(lv, next as int, shapes.skip(k as int + 1)) {
                            Some(tp) => {
                                assert(connections@.push(m).map_values(|q: Matrix| q@)
                                    =~= connections@.map_values(|q: Matrix| q@).push(m@));
                                assert(connections@.map_values(|q: Matrix| q@) + (seq![m@] + tp.0)
                                    =~= connections@.map_values(|q: Matrix| q@).push(m@) + tp.0);
                            },
                            None => {},
                        }
                    }
                    connections.push(m);
                    pos = next;
                },
                Err(_) => {
                    return Err(VaiError::FormatError);
                },
            }
            k = k + 1;
        }
        let r = VAI { rng: seed_rng(random_u64()), connections };
        proof {
            assert(shapes.skip(total as int) =~= Seq::<(int, int)>::empty());
            match spec_read_seq(lv, 0, shapes) {
                Some(tp) => {
                    assert(r.connections@.map_values(|q: Matrix| q@) + Seq::<Seq<Seq<i64>>>::empty()
                        =~= r.connections@.map_values(|q: Matrix| q@));
                    assert(tp.0 == r.connections@.map_values(|q: Matrix| q@));
                    assert forall|t: int| 0 <= t < tp.0.len() implies (#[trigger] r.connections@[t])@
                        == tp.0[t] by {
                        assert(tp.0[t] == r.connections@.map_values(|q: Matrix| q@)[t]);
                    }
                },
                None => {
                    assert(false);
                },
            }
            let a = seq![(C as int, I as int)];
            let b = Seq::new(EXTRA_LAYERS as nat, |t: int| (C as int, C as int));
            let cc = seq![(O as int, C as int)];
            assert(shapes == a + b + cc);
            assert forall|j: int| 1 <= j <= EXTRA_LAYERS implies (#[trigger] r.connections@[j]).rows
                == C && r.connections@[j].cols == C by {
                assert(shapes[j] == (a + b)[j]);
                assert((a + b)[j] == b[j - 1]);
            }
            assert(shapes[0] == (a + b)[0]);
            assert((a + b)[0] == a[0]);
            assert(shapes[EXTRA_LAYERS as int + 1] == cc[0]);
            assert forall|i: int| 0 <= i < r.connections@.len() - 1 implies (#[trigger] r
                .connections@[i + 1]).cols == r.connections@[i].rows by {}
        }
        Ok(r)
    }

    /// Round trip: the lines this network writes read back, under the
    /// shapes the type prescribes, as exactly this network's weights
    /// (provided the network has inputs and hidden nodes, so that no
    /// row serializes as a blank line).
    pub proof fn lemma_write_read_round_trip(v: Self)
        requires
            v.wf(),
            I >= 1,
            C >= 1,
        ensures
            (match spec_read_seq(spec_net_lines_fixed(v.connections@), 0, Self::spec_shapes()) {
                Some(tp) => tp.0 == views_of(v.connections@),
                None => false,
            }),
    {
        let mats = v.connections@;
        let a = seq![(C as int, I as int)];
        let b = Seq::new(EXTRA_LAYERS as nat, |t: int| (C as int, C as int));
        let cc = seq![(O as int, C as int)];
        assert(Self::spec_shapes() == a + b + cc);
        assert forall|k: int| 0 <= k < mats.len() implies shapes_of(mats)[k]
            == Self::spec_shapes()[k] by {
            if k == 0 {
                assert(Self::spec_shapes()[0] == (a + b)[0]);
                assert((a + b)[0] == a[0]);
            } else if k <= EXTRA_LAYERS {
                assert(Self::spec_shapes()[k] == (a + b)[k]);
                assert((a + b)[k] == b[k - 1]);
            } else {
                assert(Self::spec_shapes()[k] == cc[0]);
            }
        }
        assert(shapes_of(mats) =~= Self::spec_shapes());
        assert forall|k: int| 0 <= k < mats.len() implies (#[trigger] mats[k]).wf()
            && mats[k].cols >= 1 by {
            if 1 <= k <= EXTRA_LAYERS {
                assert(mats[k].cols == C);
            }
        }
        let L = spec_net_lines_fixed(mats);
        assert(L.skip(0) =~= L);
        lemma_read_seq_of_written(L, 0, 0, mats);
    }

    /// Runs an input slice through the network, returning every node
    /// layer as [`Self::process_transparent`] does.
    pub fn process_slice_transparent(&self, inputs: &[i64]) -> (trace: Vec<Vec<i64>>)
        requires
            self.wf(),
            inputs@.len() == I,
        ensures
            trace@.map_values(|v: Vec<i64>| v@) == spec_trace(self.connections@, inputs@),
    {
        let v = crate::codec::slice_to_vec(inputs);
        let trace = forward_trace(&self.connections, &v);
        trace
    }
}

} // verus!
