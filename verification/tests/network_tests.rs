use rand::SeedableRng;
use vai::matrix::Matrix;
use vai::{VaiError, FX_ONE, VAI, VAID};

fn fx(x: f64) -> i64 {
    (x * 4294967296.0).round() as i64
}

fn to_f64(x: i64) -> f64 {
    x as f64 / 4294967296.0
}

fn vaid_with(weights: Vec<(usize, usize, Vec<i64>)>) -> VAID {
    let connections = weights
        .into_iter()
        .map(|(rows, cols, data)| {
            assert_eq!(data.len(), rows * cols);
            Matrix { rows, cols, data }
        })
        .collect();
    VAID { rng: rand::rngs::StdRng::seed_from_u64(0), connections }
}

#[test]
fn zero_network_outputs_zeros() {
    let net = VAI::<2, 1, 4, 0>::new_deterministic(0);
    let out = net.process(&vec![fx(0.3), FX_ONE]);
    assert_eq!(out, vec![0]);
    let deep = VAI::<3, 2, 5, 2>::new_deterministic(9);
    let out2 = deep.process(&vec![fx(1.0), fx(-2.0), fx(0.5)]);
    assert_eq!(out2, vec![0, 0]);
    let dynamic = VAID::new_deterministic(1, &[3, 4, 2]);
    let out3 = dynamic.process(&vec![fx(1.5), fx(2.5), fx(-1.0)]).unwrap();
    assert_eq!(out3, vec![0, 0]);
}

#[test]
fn degenerate_network_passes_input_through() {
    let identity = VAID::new_deterministic(0, &[7]);
    assert_eq!(identity.connections.len(), 0);
    let input = vec![1, -2, 3];
    assert_eq!(identity.process(&input).unwrap(), input);
}

#[test]
fn process_known_values() {
    // one matrix [[1, 0.5], [-1, 2]]: no rectifier on the only layer
    let net = vaid_with(vec![(2, 2, vec![fx(1.0), fx(0.5), fx(-1.0), fx(2.0)])]);
    let out = net.process(&vec![fx(2.0), fx(4.0)]).unwrap();
    assert_eq!(out, vec![fx(4.0), fx(6.0)]);
}

#[test]
fn interior_layers_are_rectified() {
    // first layer produces -1, which the rectifier clamps to 0
    let net = vaid_with(vec![
        (1, 1, vec![fx(-1.0)]),
        (1, 1, vec![fx(3.0)]),
    ]);
    let out = net.process(&vec![fx(1.0)]).unwrap();
    assert_eq!(out, vec![0]);
    // the final layer is never rectified, so a negative output survives
    let net2 = vaid_with(vec![
        (1, 1, vec![fx(1.0)]),
        (1, 1, vec![fx(-3.0)]),
    ]);
    let out2 = net2.process(&vec![fx(1.0)]).unwrap();
    assert_eq!(out2, vec![fx(-3.0)]);
}

#[test]
fn transparent_trace_keeps_pre_activation_values() {
    let net = vaid_with(vec![
        (1, 1, vec![fx(-1.0)]),
        (1, 1, vec![fx(3.0)]),
    ]);
    let trace = net.process_transparent(&vec![fx(1.0)]).unwrap();
    assert_eq!(trace.len(), 3);
    assert_eq!(trace[0], vec![fx(1.0)]);
    assert_eq!(trace[1], vec![fx(-1.0)]); // before the clamp
    assert_eq!(trace[2], vec![0]);
    let out = net.process(&vec![fx(1.0)]).unwrap();
    assert_eq!(trace[2], out);
}

#[test]
fn dynamic_network_rejects_wrong_input_width() {
    let net = VAID::new_deterministic(0, &[3, 2]);
    assert_eq!(net.process(&vec![1, 2]).err(), Some(VaiError::DimensionError));
    assert_eq!(net.process_slice(&[1, 2, 3, 4]).err(), Some(VaiError::DimensionError));
    assert!(net.process(&vec![1, 2, 3]).is_ok());
}

#[test]
fn zero_intensity_variant_behaves_identically() {
    let mut net = VAI::<2, 1, 4, 1>::new_deterministic(3);
    let mut var = net.create_variant(0);
    let input = vec![fx(0.7), FX_ONE];
    assert_eq!(net.process(&input), var.process(&input));
    // the weights are bit-identical, so so is every later behaviour
    for (a, b) in net.connections.iter().zip(var.connections.iter()) {
        assert!(a.equals(b));
    }
    // and the same holds for the dynamic variant
    let mut dy = VAID::new_deterministic(3, &[2, 4, 1]);
    let mut dv = dy.create_variant(0);
    assert_eq!(dy.process(&input).unwrap(), dv.process(&input).unwrap());
    let _ = (var.create_variant(0), dv.create_variant(0));
}

#[test]
fn variant_leaves_source_weights_untouched() {
    let mut net = VAI::<2, 1, 4, 0>::new_deterministic(5);
    let before: Vec<Vec<i64>> = net.connections.iter().map(|m| m.data.clone()).collect();
    let _variant = net.create_variant(FX_ONE);
    let after: Vec<Vec<i64>> = net.connections.iter().map(|m| m.data.clone()).collect();
    assert_eq!(before, after);
}

#[test]
fn layer_variant_changes_exactly_one_matrix() {
    let mut net = VAI::<3, 2, 4, 2>::new_deterministic(11);
    let variant = net.create_layer_variant(FX_ONE);
    let mut changed = 0;
    for (a, b) in net.connections.iter().zip(variant.connections.iter()) {
        if !a.equals(b) {
            changed += 1;
        }
    }
    assert_eq!(changed, 1);
    let mut dy = VAID::new_deterministic(11, &[3, 4, 4, 2]);
    let dv = dy.create_layer_variant(FX_ONE);
    let mut dchanged = 0;
    for (a, b) in dy.connections.iter().zip(dv.connections.iter()) {
        if !a.equals(b) {
            dchanged += 1;
        }
    }
    assert_eq!(dchanged, 1);
}

#[test]
fn deterministic_seeds_reproduce_mutations() {
    let mut a = VAI::<2, 2, 3, 0>::new_deterministic(77);
    let mut b = VAI::<2, 2, 3, 0>::new_deterministic(77);
    let va = a.create_variant(FX_ONE);
    let vb = b.create_variant(FX_ONE);
    for (x, y) in va.connections.iter().zip(vb.connections.iter()) {
        assert!(x.equals(y));
    }
}

#[test]
fn duplicate_copies_generator_state() {
    let mut a = VAID::new_deterministic(123, &[2, 3, 1]);
    let mut b = a.duplicate();
    // same weights and same generator state: the next mutation agrees
    let va = a.create_variant(FX_ONE);
    let vb = b.create_variant(FX_ONE);
    for (x, y) in va.connections.iter().zip(vb.connections.iter()) {
        assert!(x.equals(y));
    }
    // once one of them advances further, they diverge
    let va2 = a.create_variant(FX_ONE);
    let mut same = true;
    for (x, y) in va2.connections.iter().zip(vb.connections.iter()) {
        if !x.equals(y) {
            same = false;
        }
    }
    assert!(!same);
}

#[test]
fn perturbation_aggregate_is_size_independent() {
    // mean aggregate perturbation must not scale with the width
    let agg = |width: usize, seed: u64| -> f64 {
        let mut net = VAID::new_deterministic(seed, &[2, width, 1]);
        let rounds = 40;
        let mut total = 0.0;
        for _ in 0..rounds {
            let v = net.create_variant(FX_ONE);
            for (a, b) in net.connections.iter().zip(v.connections.iter()) {
                for (x, y) in a.data.iter().zip(b.data.iter()) {
                    total += to_f64(y - x).abs();
                }
            }
        }
        total / rounds as f64
    };
    let small = agg(4, 21);
    let large = agg(16, 22);
    assert!(small > 0.0 && large > 0.0);
    let ratio = if small > large { small / large } else { large / small };
    assert!(ratio < 10.0, "aggregate perturbation grew with width: {} vs {}", small, large);
}

#[test]
fn fixed_network_round_trips_through_text() {
    let mut net = VAI::<2, 2, 3, 1>::new_deterministic(31);
    let trained = net.create_variant(FX_ONE);
    let lines = trained.write();
    let back = VAI::<2, 2, 3, 1>::read(&lines).expect("own output must read back");
    for (a, b) in trained.connections.iter().zip(back.connections.iter()) {
        assert!(a.equals(b));
    }
    // reading with the wrong compile-time shape fails
    assert!(VAI::<2, 2, 4, 1>::read(&lines).is_err());
}

#[test]
fn dynamic_network_round_trips_through_text() {
    let mut net = VAID::new_deterministic(37, &[2, 5, 3]);
    let trained = net.create_variant(FX_ONE);
    let lines = trained.write();
    let back = VAID::read(&lines).expect("own output must read back");
    assert_eq!(back.connections.len(), trained.connections.len());
    for (a, b) in trained.connections.iter().zip(back.connections.iter()) {
        assert!(a.equals(b));
    }
}

#[test]
fn dynamic_read_rejects_broken_chain() {
    let a = Matrix { rows: 2, cols: 2, data: vec![1, 2, 3, 4] };
    let b = Matrix { rows: 1, cols: 3, data: vec![5, 6, 7] };
    let mut lines: Vec<Vec<u8>> = vec![b"2".to_vec()];
    vai::codec::write_matrix_dyn(&a, &mut lines);
    vai::codec::write_matrix_dyn(&b, &mut lines);
    assert_eq!(VAID::read(&lines).err(), Some(VaiError::DimensionError));
}

#[test]
fn failed_read_does_not_build_a_network() {
    let lines: Vec<Vec<u8>> = vec![b"1".to_vec(), b"1".to_vec(), b"1 x ".to_vec()];
    match VAID::read(&lines) {
        Err(e) => assert_eq!(e, VaiError::FormatError),
        Ok(_) => panic!("malformed text must not produce a network"),
    }
}

#[test]
fn free_matrix_variant_preserves_shape() {
    let m = Matrix { rows: 2, cols: 3, data: vec![0; 6] };
    let v = vai::matrix::create_variant(&m, FX_ONE);
    assert_eq!((v.rows, v.cols), (2, 3));
    let z = vai::matrix::create_variant(&m, 0);
    assert!(z.equals(&m));
    let mut rng = rand::rngs::StdRng::seed_from_u64(4);
    let s = vai::matrix::create_variant_stdrng(&mut rng, &m, 0);
    assert!(s.equals(&m));
}

#[test]
fn process_slice_matches_process() {
    let net = vaid_with(vec![(2, 2, vec![fx(1.0), fx(0.5), fx(-1.0), fx(2.0)])]);
    let out_vec = net.process(&vec![fx(2.0), fx(4.0)]).unwrap();
    let out_slice = net.process_slice(&[fx(2.0), fx(4.0)]).unwrap();
    assert_eq!(out_vec, out_slice);
    let fixed = VAI::<2, 1, 4, 0>::new_deterministic(0);
    assert_eq!(
        fixed.process(&vec![fx(1.0), FX_ONE]),
        fixed.process_slice(&[fx(1.0), FX_ONE])
    );
    let t = fixed.process_slice_transparent(&[fx(1.0), FX_ONE]);
    assert_eq!(t.len(), 3);
    assert_eq!(t[0], vec![fx(1.0), FX_ONE]);
}
