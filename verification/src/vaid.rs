//! The dynamic-shape network: the layer widths are a runtime-supplied
//! sequence, matrices are runtime-sized, and shape errors are reported
//! as values instead of being ruled out by the type.

use crate::codec::{
    lemma_dec_digits_props, lemma_read_seq_dyn_of_written, lines_view, spec_dec_digits,
    spec_matrix_lines_dyn, spec_net_lines_dyn, spec_parse_count, spec_read_seq_dyn,
};
use crate::error::VaiError;
use crate::fixed::fx_div_spec;
use crate::matrix::{matrix_perturbed, spec_zero_matrix, Matrix};
use crate::net::{
    conns_wf, forward, forward_trace, layer_variant_connections, lemma_forward_len,
    lemma_trace_last, spec_forward, spec_total_params, spec_trace, total_params,
    variant_connections,
};
use crate::rng::{random_u64, seed_rng};
use vstd::arithmetic::div_mod::lemma_div_of0;
use vstd::prelude::*;

pub use crate::codec::{read_matrix_dyn as read_matrix, write_matrix_dyn as write_matrix};
pub use crate::matrix::{create_variant, create_variant_stdrng};

verus! {

/// The shape of each read matrix with its weights: rows, columns,
/// values.
pub open spec fn items_of(mats: Seq<Matrix>) -> Seq<(int, int, Seq<Seq<i64>>)> {
    mats.map_values(|m: Matrix| (m.rows as int, m.cols as int, m@))
}

/// Consecutive matrices chain: the input width (columns) of each equals
/// the output width (rows) of the one before it.
pub open spec fn chain_ok_items(items: Seq<(int, int, Seq<Seq<i64>>)>) -> bool {
    forall|i: int| 0 <= i < items.len() - 1 ==> (#[trigger] items[i + 1]).1 == items[i].0
}

/// What reading a persisted dynamic network yields: a leading matrix
/// count, then that many self-describing matrices; malformed text is a
/// format error, and matrices that do not chain are a dimension error.
pub open spec fn spec_vaid_read_outcome(L: Seq<Seq<u8>>) -> Result<
    Seq<(int, int, Seq<Seq<i64>>)>,
    VaiError,
> {
    if L.len() == 0 {
        Err(VaiError::FormatError)
    } else {
        match spec_parse_count(L[0]) {
            None => Err(VaiError::FormatError),
            Some(n) => if n > 0x10000 {
                Err(VaiError::FormatError)
            } else {
                match spec_read_seq_dyn(L, 1, n) {
                    None => Err(VaiError::FormatError),
                    Some(tp) => if chain_ok_items(tp.0) {
                        Ok(tp.0)
                    } else {
                        Err(VaiError::DimensionError)
                    },
                }
            },
        }
    }
}

/// A feed-forward network with runtime-sized layers. `connections`
/// holds the weight matrices in application order; an empty chain maps
/// inputs straight to outputs. The network owns the generator that
/// feeds its mutation operators.
#[derive(Clone)]
pub struct VAID {
    pub rng: rand::rngs::StdRng,
    pub connections: Vec<Matrix>,
}

impl VAID {
    /// The matrices are well formed, chain, and fit the capacity limit.
    pub open spec fn wf(self) -> bool {
        &&& conns_wf(self.connections@)
        &&& self.connections@.len() <= 0x10000
    }

    /// Every weight of every matrix is zero.
    pub open spec fn is_zero(self) -> bool {
        forall|k: int|
            0 <= k < self.connections@.len() ==> (#[trigger] self.connections@[k])@
                == spec_zero_matrix(
                self.connections@[k].rows as int,
                self.connections@[k].cols as int,
            )
    }

    /// Creates a network with zeros for all connection weights and a
    /// randomly seeded generator.
    ///
    /// * `layers` - the width of each layer, starting with the input
    ///   width and ending with the output width. With fewer than two
    ///   layers, inputs map directly to outputs.
    pub fn new(layers: &[usize]) -> (r: Self)
        requires
            1 <= layers@.len() <= 0x10001,
            forall|i: int|
                0 <= i < layers@.len() - 1 ==> #[trigger] (layers@[i + 1] * layers@[i])
                    <= crate::matrix::MAX_PARAMS,
        ensures
            r.wf(),
            r.is_zero(),
            r.connections@.len() == layers@.len() - 1,
            forall|k: int|
                0 <= k < layers@.len() - 1 ==> (#[trigger] r.connections@[k]).rows == layers@[k
                    + 1] && r.connections@[k].cols == layers@[k],
    {
        Self::new_deterministic(random_u64(), layers)
    }

    /// Creates a network with zeros for all connection weights, seeding
    /// the generator with the given value for reproducibility.
    ///
    /// * `layers` - the width of each layer, as for [`VAID::new`].
    pub fn new_deterministic(seed: u64, layers: &[usize]) -> (r: Self)
        requires
            1 <= layers@.len() <= 0x10001,
            forall|i: int|
                0 <= i < layers@.len() - 1 ==> #[trigger] (layers@[i + 1] * layers@[i])
                    <= crate::matrix::MAX_PARAMS,
        ensures
            r.wf(),
            r.is_zero(),
            r.connections@.len() == layers@.len() - 1,
            forall|k: int|
                0 <= k < layers@.len() - 1 ==> (#[trigger] r.connections@[k]).rows == layers@[k
                    + 1] && r.connections@[k].cols == layers@[k],
    {
        let mut connections: Vec<Matrix> = Vec::new();
        let count = layers.len() - 1;
        let mut i: usize = 0;
        while i < count
            invariant
                count == layers@.len() - 1,
                layers@.len() <= 0x10001,
                forall|t: int|
                    0 <= t < layers@.len() - 1 ==> #[trigger] (layers@[t + 1] * layers@[t])
                        <= crate::matrix::MAX_PARAMS,
                i <= count,
                connections@.len() == i,
                forall|k: int|
                    0 <= k < i ==> (#[trigger] connections@[k]).wf() && connections@[k].rows
                        == layers@[k + 1] && connections@[k].cols == layers@[k]
                        && connections@[k]@ == spec_zero_matrix(
                        layers@[k + 1] as int,
                        layers@[k] as int,
                    ),
            decreases count - i,
        {
            connections.push(Matrix::zeros(layers[i + 1], layers[i]));
            i = i + 1;
        }
        let r = VAID { rng: seed_rng(seed), connections };
        proof {
            assert forall|t: int| 0 <= t < r.connections@.len() - 1 implies (#[trigger] r
                .connections@[t + 1]).cols == r.connections@[t].rows by {}
        }
        r
    }

    /// An exact copy of this network: same weights, and a duplicate of
    /// the generator state, so copy and original produce identical
    /// mutations until one of them mutates.
    pub fn duplicate(&self) -> (r: Self)
        requires
            self.wf(),
        ensures
            r.wf(),
            r.connections@.len() == self.connections@.len(),
            forall|k: int|
                0 <= k < self.connections@.len() ==> (#[trigger] r.connections@[k]).rows
                    == self.connections@[k].rows && r.connections@[k].cols
                    == self.connections@[k].cols && r.connections@[k]@ == self.connections@[k]@,
    {
        let mut connections: Vec<Matrix> = Vec::new();
        let mut k: usize = 0;
        while k < self.connections.len()
            invariant
                self.wf(),
                k <= self.connections@.len(),
                connections@.len() == k,
                forall|j: int|
                    0 <= j < k ==> (#[trigger] connections@[j]).wf() && connections@[j].rows
                        == self.connections@[j].rows && connections@[j].cols
                        == self.connections@[j].cols && connections@[j]@ == self.connections@[j]@,
            decreases self.connections@.len() - k,
        {
            connections.push(self.connections[k].duplicate());
            k = k + 1;
        }
        VAID { rng: self.rng.clone(), connections }
    }

    /// Creates a random variant of this network.
    /// * `intensity` - scale of the added randomness (fixed point).
    ///
    /// Every weight of every matrix is perturbed. To keep variation
    /// consistent across network sizes, the intensity is divided by one
    /// plus the total connection count of the network before being
    /// applied, uniformly for every matrix. The source network's
    /// weights are untouched; its generator advances.
    pub fn create_variant(&mut self, intensity: i64) -> (r: Self)
        requires
            old(self).wf(),
        ensures
            final(self).wf(),
            final(self).connections@ == old(self).connections@,
            r.wf(),
            r.connections@.len() == old(self).connections@.len(),
            forall|k: int|
                0 <= k < old(self).connections@.len() ==> (#[trigger] r.connections@[k]).rows
                    == old(self).connections@[k].rows && r.connections@[k].cols == old(
                    self,
                ).connections@[k].cols,
            forall|k: int|
                0 <= k < old(self).connections@.len() ==> matrix_perturbed(
                    old(self).connections@[k]@,
                    (#[trigger] r.connections@[k])@,
                    fx_div_spec(intensity as int, 1 + spec_total_params(old(self).connections@)),
                ),
            intensity == 0 ==> forall|k: int|
                0 <= k < old(self).connections@.len() ==> (#[trigger] r.connections@[k])@ == old(
                    self,
                ).connections@[k]@,
    {
        let result_rng = self.rng.clone();
        let total = total_params(&self.connections);
        let eff = crate::fixed::fx_div(intensity, 1 + (total as i64));
        proof {
            if intensity == 0 {
                lemma_div_of0(1 + spec_total_params(self.connections@));
            }
        }
        let connections = variant_connections(&mut self.rng, &self.connections, eff);
        VAID { rng: result_rng, connections }
    }

    /// Creates a random variant of this network that changes exactly
    /// one matrix, chosen uniformly at random. The intensity is divided
    /// by one plus that matrix's own connection count. Every other
    /// matrix is copied bit for bit.
    pub fn create_layer_variant(&mut self, intensity: i64) -> (r: Self)
        requires
            old(self).wf(),
            old(self).connections@.len() >= 1,
        ensures
            final(self).wf(),
            final(self).connections@ == old(self).connections@,
            r.wf(),
            r.connections@.len() == old(self).connections@.len(),
            exists|j: int|
                0 <= j < old(self).connections@.len() && matrix_perturbed(
                    old(self).connections@[j]@,
                    (#[trigger] r.connections@[j])@,
                    fx_div_spec(
                        intensity as int,
                        1 + old(self).connections@[j].rows * old(self).connections@[j].cols,
                    ),
                ) && (forall|k: int|
                    0 <= k < old(self).connections@.len() && k != j
                        ==> (#[trigger] r.connections@[k])@ == old(self).connections@[k]@),
    {
        let result_rng = self.rng.clone();
        let connections = layer_variant_connections(&mut self.rng, &self.connections, intensity);
        let r = VAID { rng: result_rng, connections };
        proof {
            let mats = old(self).connections@;
            let j = choose|j: int|
                0 <= j < mats.len() && matrix_perturbed(
                    mats[j]@,
                    (#[trigger] r.connections@[j])@,
                    fx_div_spec(intensity as int, 1 + mats[j].rows * mats[j].cols),
                ) && (forall|k: int|
                    0 <= k < mats.len() && k != j ==> (#[trigger] r.connections@[k])@ == mats[k]@);
            assert(0 <= j < mats.len() && matrix_perturbed(
                mats[j]@,
                r.connections@[j]@,
                fx_div_spec(intensity as int, 1 + mats[j].rows * mats[j].cols),
            ));
        }
        r
    }

    /// Runs an input vector through the network: each layer multiplies
    /// and rectifies, except the last, which only multiplies. With no
    /// matrices the input passes through unchanged. Fails with a
    /// dimension error exactly when the input length does not match the
    /// network's input width.
    /// * `inputs` - the inputs; one of them should be a constant bias.
    pub fn process(&self, inputs: &Vec<i64>) -> (r: Result<Vec<i64>, VaiError>)
        requires
            self.wf(),
        ensures
            (match r {
                Ok(out) => {
                    &&& (self.connections@.len() == 0 || inputs@.len()
                        == self.connections@[0].cols)
                    &&& out@ == spec_forward(self.connections@, inputs@)
                    &&& out@.len() == (if self.connections@.len() == 0 {
                        inputs@.len()
                    } else {
                        self.connections@[self.connections@.len() - 1].rows as nat
                    })
                },
                Err(e) => self.connections@.len() > 0 && inputs@.len()
                    != self.connections@[0].cols && e == VaiError::DimensionError,
            }),
    {
        if self.connections.len() > 0 && inputs.len() != self.connections[0].cols {
            return Err(VaiError::DimensionError);
        }
        let out = forward(&self.connections, inputs);
        proof {
            lemma_forward_len(self.connections@, inputs@);
        }
        Ok(out)
    }

    /// Runs an input slice through the network, as [`VAID::process`]
    /// does.
    pub fn process_slice(&self, inputs: &[i64]) -> (r: Result<Vec<i64>, VaiError>)
        requires
            self.wf(),
        ensures
            (match r {
                Ok(out) => (self.connections@.len() == 0 || inputs@.len()
                    == self.connections@[0].cols) && out@ == spec_forward(
                    self.connections@,
                    inputs@,
                ),
                Err(e) => self.connections@.len() > 0 && inputs@.len()
                    != self.connections@[0].cols && e == VaiError::DimensionError,
            }),
    {
        let v = crate::codec::slice_to_vec(inputs);
        self.process(&v)
    }

    /// Runs an input vector through the network and returns the value
    /// of every node layer: the input, each layer's value *before*
    /// rectification (so a caller sees what each clamp removed), ending
    /// with the final output. Fails with a dimension error exactly when
    /// the input length does not match the network's input width.
    pub fn process_transparent(&self, inputs: &Vec<i64>) -> (r: Result<Vec<Vec<i64>>, VaiError>)
        requires
            self.wf(),
        ensures
            (match r {
                Ok(trace) => (self.connections@.len() == 0 || inputs@.len()
                    == self.connections@[0].cols) && trace@.map_values(|v: Vec<i64>| v@)
                    == spec_trace(self.connections@, inputs@) && trace@.len()
                    == self.connections@.len() + 1,
                Err(e) => self.connections@.len() > 0 && inputs@.len()
                    != self.connections@[0].cols && e == VaiError::DimensionError,
            }),
    {
        if self.connections.len() > 0 && inputs.len() != self.connections[0].cols {
            return Err(VaiError::DimensionError);
        }
        let trace = forward_trace(&self.connections, inputs);
        proof {
            lemma_trace_last(self.connections@, inputs@);
        }
        Ok(trace)
    }

    /// Runs an input slice through the network, returning every node
    /// layer as [`VAID::process_transparent`] does.
    pub fn process_slice_transparent(&self, inputs: &[i64]) -> (r: Result<
        Vec<Vec<i64>>,
        VaiError,
    >)
        requires
            self.wf(),
        ensures
            (match r {
                Ok(trace) => (self.connections@.len() == 0 || inputs@.len()
                    == self.connections@[0].cols) && trace@.map_values(|v: Vec<i64>| v@)
                    == spec_trace(self.connections@, inputs@),
                Err(e) => self.connections@.len() > 0 && inputs@.len()
                    != self.connections@[0].cols && e == VaiError::DimensionError,
            }),
    {
        let v = crate::codec::slice_to_vec(inputs);
        self.process_transparent(&v)
    }

    /// Writes the network as lines of text: a line holding the matrix
    /// count, then each matrix in the self-describing format of
    /// [`write_matrix`].
    pub fn write(&self) -> (lines: Vec<Vec<u8>>)
        requires
            self.wf(),
        ensures
            lines_view(lines@) == seq![spec_dec_digits(self.connections@.len() as int)]
                + spec_net_lines_dyn(self.connections@),
    {
        let mut out: Vec<Vec<u8>> = Vec::new();
        let mut count_line: Vec<u8> = Vec::new();
        crate::codec::push_u64_dec(self.connections.len() as u64, &mut count_line);
        proof {
            assert(count_line@ =~= spec_dec_digits(self.connections@.len() as int));
            assert(lines_view(out@.push(count_line)) =~= lines_view(out@).push(count_line@));
        }
        out.push(count_line);
        let mut k: usize = 0;
        proof {
            assert(self.connections@.skip(0) =~= self.connections@);
            assert(lines_view(out@) + spec_net_lines_dyn(self.connections@) =~= seq![
                spec_dec_digits(self.connections@.len() as int),
            ] + spec_net_lines_dyn(self.connections@));
        }
        while k < self.connections.len()
            invariant
                self.wf(),
                k <= self.connections@.len(),
                lines_view(out@) + spec_net_lines_dyn(self.connections@.skip(k as int)) =~= seq![
                    spec_dec_digits(self.connections@.len() as int),
                ] + spec_net_lines_dyn(self.connections@),
            decreases self.connections@.len() - k,
        {
            write_matrix(&self.connections[k], &mut out);
            proof {
                let rest = self.connections@.skip(k as int);
                assert(rest[0] == self.connections@[k as int]);
                assert(rest.drop_first() =~= self.connections@.skip(k as int + 1));
                assert(spec_net_lines_dyn(rest) == spec_matrix_lines_dyn(rest[0]@, rest[0].rows as int)
                    + spec_net_lines_dyn(rest.drop_first()));
                assert(lines_view(out@) + spec_net_lines_dyn(self.connections@.skip(k as int + 1))
                    =~= seq![spec_dec_digits(self.connections@.len() as int)] + spec_net_lines_dyn(
                    self.connections@,
                ));
            }
            k = k + 1;
        }
        proof {
            assert(self.connections@.skip(self.connections@.len() as int)
                =~= Seq::<Matrix>::empty());
            assert(lines_view(out@) =~= seq![spec_dec_digits(self.connections@.len() as int)]
                + spec_net_lines_dyn(self.connections@));
        }
        out
    }

    /// Round trip: the lines this network writes read back as exactly
    /// this network's shapes and weights, and its matrices chain, so
    /// reading cannot fail (provided every matrix has at least one row
    /// and one column, so that no row serializes as a blank line).
    pub proof fn lemma_write_read_round_trip(v: Self)
        requires
            v.wf(),
            forall|k: int|
                0 <= k < v.connections@.len() ==> (#[trigger] v.connections@[k]).rows >= 1
                    && v.connections@[k].cols >= 1,
        ensures
            spec_vaid_read_outcome(
                seq![spec_dec_digits(v.connections@.len() as int)] + spec_net_lines_dyn(
                    v.connections@,
                ),
            ) == Ok::<Seq<(int, int, Seq<Seq<i64>>)>, VaiError>(items_of(v.connections@)),
    {
        let mats = v.connections@;
        let n = mats.len() as int;
        let L = seq![spec_dec_digits(n)] + spec_net_lines_dyn(mats);
        lemma_dec_digits_props(n);
        assert(L[0] == spec_dec_digits(n));
        assert(spec_parse_count(L[0]) == Some(n));
        assert(L.skip(1) =~= spec_net_lines_dyn(mats));
        lemma_read_seq_dyn_of_written(L, 1, mats);
        let items = items_of(mats);
        assert(chain_ok_items(items)) by {
            assert forall|i: int| 0 <= i < items.len() - 1 implies (#[trigger] items[i + 1]).1
                == items[i].0 by {
                assert(items[i + 1].1 == mats[i + 1].cols);
                assert(items[i].0 == mats[i].rows);
            }
        }
    }

    /// Reads a network from lines of text: a matrix count, then that
    /// many self-describing matrices, exactly as
    /// [`spec_vaid_read_outcome`] describes. The result owns a freshly
    /// and unpredictably seeded generator. Nothing is partially built
    /// on failure.
    pub fn read(lines: &Vec<Vec<u8>>) -> (r: Result<Self, VaiError>)
        ensures
            (match r {
                Ok(v) => (match spec_vaid_read_outcome(lines_view(lines@)) {
                    Ok(items) => {
                        &&& v.wf()
                        &&& v.connections@.len() == items.len()
                        &&& forall|k: int|
                            0 <= k < items.len() ==> (#[trigger] v.connections@[k]).rows as int
                                == items[k].0 && v.connections@[k].cols as int == items[k].1
                                && v.connections@[k]@ == items[k].2
                    },
                    Err(_) => false,
                }),
                Err(e) => spec_vaid_read_outcome(lines_view(lines@)) == Err::<
                    Seq<(int, int, Seq<Seq<i64>>)>,
                    VaiError,
                >(e),
            }),
    {
        let ghost lv = lines_view(lines@);
        if lines.len() == 0 {
            return Err(VaiError::FormatError);
        }
        proof {
            assert(lv[0] == lines@[0]@);
        }
        let n = match crate::codec::parse_count(&lines[0]) {
            Some(n) => n,
            None => {
                return Err(VaiError::FormatError);
            },
        };
        if n > 0x10000 {
            return Err(VaiError::FormatError);
        }
        let mut connections: Vec<Matrix> = Vec::new();
        let mut pos: usize = 1;
        let mut k: usize = 0;
        proof {
            assert(spec_read_seq_dyn(lv, 1, n as int) == spec_read_seq_dyn(
                lv,
                pos as int,
                (n - k) as int,
            ));
            match spec_read_seq_dyn(lv, pos as int, (n - k) as int) {
                Some(tp) => {
                    assert(items_of(connections@) =~= Seq::<(int, int, Seq<Seq<i64>>)>::empty());
                    assert(Seq::<(int, int, Seq<Seq<i64>>)>::empty() + tp.0 =~= tp.0);
                },
                None => {},
            }
        }
        while k < n
            invariant
                lv == lines_view(lines@),
                lines@.len() >= 1,
                spec_parse_count(lv[0]) == Some(n as int),
                n <= 0x10000,
                k <= n,
                connections@.len() == k,
                forall|j: int| 0 <= j < k ==> (#[trigger] connections@[j]).wf(),
                (match spec_read_seq_dyn(lv, pos as int, n - k) {
                    Some(tp) => spec_read_seq_dyn(lv, 1, n as int) == Some(
                        (items_of(connections@) + tp.0, tp.1),
                    ),
                    None => spec_read_seq_dyn(lv, 1, n as int) is None,
                }),
            decreases n - k,
        {
            match read_matrix(lines, pos) {
                Ok(pair) => {
                    let (m, next) = pair;
                    proof {
                        match spec_read_seq_dyn(lv, next as int, n - k - 1) {
                            Some(tp) => {
                                assert(items_of(connections@.push(m)) =~= items_of(
                                    connections@,
                                ).push((m.rows as int, m.cols as int, m@)));
                                assert(items_of(connections@) + (seq![
                                    (m.rows as int, m.cols as int, m@),
                                ] + tp.0) =~= items_of(connections@).push(
                                    (m.rows as int, m.cols as int, m@),
                                ) + tp.0);
                            },
                            None => {},
                        }
                    }
                    connections.push(m);
                    pos = next;
                },
                Err(_) => {
                    return Err(VaiError::FormatError);
                },
            }
            k = k + 1;
        }
        proof {
            match spec_read_seq_dyn(lv, 1, n as int) {
                Some(tp) => {
                    assert(items_of(connections@) + Seq::<(int, int, Seq<Seq<i64>>)>::empty()
                        =~= items_of(connections@));
                    assert(tp.0 == items_of(connections@));
                },
                None => {
                    assert(false);
                },
            }
        }
        let ghost items = items_of(connections@);
        let mut i: usize = 0;
        while i + 1 < connections.len()
            invariant
                items == items_of(connections@),
                lv == lines_view(lines@),
                lines@.len() >= 1,
                spec_parse_count(lv[0]) == Some(n as int),
                n <= 0x10000,
                (match spec_read_seq_dyn(lv, 1, n as int) {
                    Some(tp) => tp.0 == items,
                    None => false,
                }),
                connections@.len() <= 0x10000,
                forall|j: int| 0 <= j < connections@.len() ==> (#[trigger] connections@[j]).wf(),
                i <= connections@.len(),
                forall|j: int|
                    0 <= j < i && j < connections@.len() - 1 ==> (#[trigger] connections@[j
                        + 1]).cols == connections@[j].rows,
            decreases connections@.len() - i,
        {
            if connections[i + 1].cols != connections[i].rows {
                proof {
                    assert(items[i as int + 1].1 != items[i as int].0);
                    assert(!chain_ok_items(items));
                }
                return Err(VaiError::DimensionError);
            }
            i = i + 1;
        }
        let r = VAID { rng: seed_rng(random_u64()), connections };
        proof {
            assert forall|j: int| 0 <= j < r.connections@.len() - 1 implies (#[trigger] r
                .connections@[j + 1]).cols == r.connections@[j].rows by {}
            assert(chain_ok_items(items)) by {
                assert forall|j: int| 0 <= j < items.len() - 1 implies (#[trigger] items[j + 1]).1
                    == items[j].0 by {
                    assert(items[j + 1].1 == r.connections@[j + 1].cols);
                    assert(items[j].0 == r.connections@[j].rows);
                }
            }
            assert forall|t: int| 0 <= t < items.len() implies (#[trigger] r.connections@[t]).rows
                as int == items[t].0 && r.connections@[t].cols as int == items[t].1 && r
                .connections@[t]@ == items[t].2 by {
                assert(items[t] == items_of(r.connections@)[t]);
            }
        }
        Ok(r)
    }
}

} // verus!
