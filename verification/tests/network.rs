use lsh_rs::arena::MemArena;
use lsh_rs::hash::SignRandomProjections;
use lsh_rs::lsh::LSH;
use lsh_rs::network::{
    make_input_next_layer, parse_loss, same_bits, Activation, ConfigError, Loss, Network, Neuron,
};

type Dot = fn(&Vec<u32>, &Vec<u32>) -> u32;

fn f(x: u32) -> f32 {
    f32::from_bits(x)
}

fn bits(v: &[f32]) -> Vec<u32> {
    v.iter().map(|x| x.to_bits()).collect()
}

fn dot(a: &Vec<u32>, b: &Vec<u32>) -> u32 {
    a.iter().zip(b.iter()).map(|(x, y)| f(*x) * f(*y)).sum::<f32>().to_bits()
}

fn activate(act: Activation, z: f32) -> f32 {
    match act {
        Activation::ReLU => z.max(0.),
        Activation::Sigmoid => 1. / (1. + (-z).exp()),
        Activation::Linear => z,
    }
}

fn prime(act: Activation, z: f32) -> f32 {
    match act {
        Activation::ReLU => {
            if z > 0. {
                1.
            } else {
                0.
            }
        }
        Activation::Sigmoid => activate(act, z) * (1. - activate(act, z)),
        Activation::Linear => 1.,
    }
}

fn unit(u: &Vec<u32>, w: &Vec<u32>, b: u32, act: Activation) -> (u32, u32) {
    let z = f(dot(u, w)) + f(b);
    (z.to_bits(), activate(act, z).to_bits())
}

fn step_w(w: &Vec<u32>, u: &Vec<u32>, delta: u32, lr: u32) -> Vec<u32> {
    w.iter().zip(u.iter()).map(|(w, u)| (f(*w) - f(lr) * (f(*u) * f(delta))).to_bits()).collect()
}

fn step_b(b: u32, delta: u32, lr: u32) -> u32 {
    (f(b) - f(lr) * f(delta)).to_bits()
}

fn term(y: u8, a: u32, count: usize, _loss: Loss, _act: Activation) -> u32 {
    ((y as f32 - f(a)).powi(2) / count as f32).to_bits()
}

fn plus(x: u32, y: u32) -> u32 {
    (f(x) + f(y)).to_bits()
}

fn out_delta(y: u8, a: u32, _loss: Loss, _act: Activation) -> u32 {
    (f(a) - y as f32).to_bits()
}

fn back(acc: u32, delta: u32, w: u32, z: u32, act: Activation) -> u32 {
    (f(acc) + f(delta) * f(w) * prime(act, f(z))).to_bits()
}

fn index(rows: &[&[f32]]) -> LSH<Dot> {
    let dim = rows[0].len();
    let srp = SignRandomProjections::new(rows.iter().map(|r| bits(r)).collect(), dim).unwrap();
    LSH::new(vec![srp], dim, false, dot as Dot).unwrap()
}

fn sorted(mut v: Vec<u32>) -> Vec<u32> {
    v.sort();
    v
}

fn ids(neurons: &[Neuron]) -> Vec<usize> {
    let mut v: Vec<usize> = neurons.iter().map(|c| c.j).collect();
    v.sort();
    v
}

/// Dims [2,3,2]: the hidden units 0 and 1 hash like [1,0], unit 2 does not.
fn gated() -> Network<Dot> {
    Network::new(
        vec![2, 3, 2],
        vec![Activation::ReLU, Activation::Sigmoid],
        vec![index(&[&[1., 0.], &[0., 1.]]), index(&[&[1., 1., 1.], &[1., -1., 0.]])],
        &vec![
            vec![bits(&[1., 1.]), bits(&[2., 0.5]), bits(&[-1., -1.])],
            vec![bits(&[0.5, -0.5, 1.]), bits(&[-1., 1., 2.])],
        ],
        0.5f32.to_bits(),
        "mse",
    )
    .unwrap()
}

#[test]
fn arena_add_get_freeze_snapshot() {
    let mut arena = MemArena::new();
    assert_eq!(arena.len(), 0);
    assert_eq!(arena.add(bits(&[1., 2.])), 0);
    assert_eq!(arena.add(bits(&[3., 4.])), 1);
    assert_eq!(arena.len(), 2);
    assert_eq!(arena.backup_len(), 0);
    arena.freeze();
    assert_eq!(arena.backup_len(), arena.len());
    assert_eq!(arena.get_backup(1), &bits(&[3., 4.]));
    arena.set(1, bits(&[5., 6.]));
    assert_eq!(arena.get(1), &bits(&[5., 6.]));
    assert_eq!(arena.get(0), &bits(&[1., 2.]));
    assert_eq!(arena.get_backup(1), &bits(&[3., 4.]));
    arena.snapshot(1);
    assert_eq!(arena.get_backup(1), &bits(&[5., 6.]));
    assert_eq!(arena.get_backup(0), &bits(&[1., 2.]));
    assert_eq!(arena.backup_len(), arena.len());
    assert_eq!(arena.pool, vec![bits(&[1., 2.]), bits(&[5., 6.])]);
}

#[test]
fn loss_names() {
    assert_eq!(parse_loss("mse"), Some(Loss::MSE));
    assert_eq!(parse_loss("nll"), Some(Loss::NLL));
    assert_eq!(parse_loss("MSE"), None);
    assert_eq!(parse_loss(""), None);
    assert_eq!(parse_loss("mse "), None);
}

#[test]
fn same_bits_is_exact() {
    assert!(same_bits(&bits(&[1., 2.]), &bits(&[1., 2.])));
    assert!(!same_bits(&bits(&[0.]), &bits(&[-0.])));
    assert!(same_bits(&bits(&[f32::NAN]), &bits(&[f32::NAN])));
    assert!(!same_bits(&bits(&[1.]), &bits(&[1., 1.])));
}

#[test]
fn sparse_input_fills_zeros() {
    let n = |j: usize, a: f32| Neuron { i: 0, j, k: 0, z: 0, a: a.to_bits(), delta: 0 };
    assert_eq!(make_input_next_layer(&vec![], 3), bits(&[0., 0., 0.]));
    assert_eq!(make_input_next_layer(&vec![n(2, 5.), n(0, -1.)], 3), bits(&[-1., 0., 5.]));
    // a later listing of a perceptron counts; one outside the layer is skipped
    assert_eq!(make_input_next_layer(&vec![n(1, 5.), n(1, 6.), n(7, 9.)], 2), bits(&[0., 6.]));
    assert_eq!(make_input_next_layer(&vec![n(0, 1.)], 0), Vec::<u32>::new());
}

#[test]
fn configuration_errors() {
    let make = |dims: Vec<usize>,
                acts: Vec<Activation>,
                indexes: Vec<LSH<Dot>>,
                weights: Vec<Vec<Vec<u32>>>,
                loss: &str| {
        Network::new(dims, acts, indexes, &weights, 0, loss).err()
    };
    let lin = Activation::Linear;
    let w = || vec![vec![bits(&[1., 0.])]];
    assert_eq!(make(vec![], vec![], vec![], vec![], "mse"), Some(ConfigError::NoDimensions));
    assert_eq!(
        make(vec![2, 1], vec![], vec![index(&[&[1., 0.]])], w(), "mse"),
        Some(ConfigError::Activations)
    );
    assert_eq!(
        make(vec![2, 1], vec![lin, lin], vec![index(&[&[1., 0.]])], w(), "mse"),
        Some(ConfigError::Activations)
    );
    assert_eq!(make(vec![2, 1], vec![lin], vec![], w(), "mse"), Some(ConfigError::Indexes));
    assert_eq!(
        make(vec![2, 1], vec![lin], vec![index(&[&[1., 0., 0.]])], w(), "mse"),
        Some(ConfigError::Indexes)
    );
    let mut used = index(&[&[1., 0.]]);
    used.store_vec(&bits(&[1., 1.])).unwrap();
    assert_eq!(make(vec![2, 1], vec![lin], vec![used], w(), "mse"), Some(ConfigError::Indexes));
    assert_eq!(
        make(vec![2, 1], vec![lin], vec![index(&[&[1., 0.]])], vec![], "mse"),
        Some(ConfigError::Weights)
    );
    assert_eq!(
        make(vec![2, 2], vec![lin], vec![index(&[&[1., 0.]])], w(), "mse"),
        Some(ConfigError::Weights)
    );
    assert_eq!(
        make(vec![2, 1], vec![lin], vec![index(&[&[1., 0.]])], vec![vec![bits(&[1.])]], "mse"),
        Some(ConfigError::Weights)
    );
    assert_eq!(
        make(vec![2, 1], vec![lin], vec![index(&[&[1., 0.]])], w(), "l2"),
        Some(ConfigError::UnknownLoss)
    );
    assert_eq!(make(vec![2, 1], vec![lin], vec![index(&[&[1., 0.]])], w(), "nll"), None);
    if usize::BITS > 32 {
        let many = (u32::MAX as usize) + 1;
        assert_eq!(
            make(vec![2, many], vec![lin], vec![index(&[&[1., 0.]])], w(), "mse"),
            Some(ConfigError::TooLarge)
        );
    }
    // an input dimension alone is a network without layers
    assert_eq!(make(vec![2], vec![], vec![], vec![], "mse"), None);
}

#[test]
fn new_network_is_populated_and_frozen() {
    let net = gated();
    assert_eq!(net.dimensions(), &vec![2, 3, 2]);
    assert_eq!(net.activations(), &vec![Activation::ReLU, Activation::Sigmoid]);
    assert_eq!(net.learning_rate(), 0.5f32.to_bits());
    assert_eq!(net.loss(), Loss::MSE);
    assert_eq!(net.w(), &vec![vec![0, 1, 2], vec![0, 1]]);
    assert_eq!(net.pool().len(), 5);
    assert_eq!(net.pool().backup_len(), 5);
    assert_eq!(net.get_weight(0, 1), &bits(&[2., 0.5]));
    assert_eq!(net.get_weight(1, 0), &bits(&[0.5, -0.5, 1.]));
    assert_eq!(net.get_weight_original(1, 1), &bits(&[-1., 1., 2.]));
    assert_eq!(net.get_pool_idx(0, 2), 2);
    assert_eq!(net.get_pool_idx(1, 1), 4);
    for (layer, size) in [(0usize, 3usize), (1, 2)] {
        assert_eq!(net.lsh(layer).counter() as usize, size);
        for j in 0..size {
            assert_eq!(net.get_bias(layer, j), 0);
            // every perceptron is found by its own weight
            let found = net.lsh(layer).query_bucket_ids(net.get_weight(layer, j)).unwrap();
            assert!(found.contains(&(j as u32)));
        }
    }
}

#[test]
fn single_output_linear_identity() {
    let mut net = Network::new(
        vec![2, 1],
        vec![Activation::Linear],
        vec![index(&[&[-1., 0.]])],
        &vec![vec![bits(&[1., 0.])]],
        0f32.to_bits(),
        "mse",
    )
    .unwrap();
    let x = bits(&[3., 7.]);
    let (mut neur, inputs) = net.forward(&x, &unit);
    assert_eq!(inputs, vec![x.clone()]);
    assert_eq!(neur.len(), 1);
    assert_eq!(neur[0].len(), 1);
    assert_eq!((neur[0][0].i, neur[0][0].j, neur[0][0].k), (0, 0, 0));
    assert_eq!(f(neur[0][0].z), 3.);
    assert_eq!(f(neur[0][0].a), 3.);
    assert_eq!(neur[0][0].delta, 0);
    let loss = net.backprop(&mut neur, &vec![3], &term, &plus, &out_delta, &back);
    assert_eq!(f(loss), 0.);
    assert_eq!(f(neur[0][0].delta), 0.);
    net.update_param(&inputs[0], &neur[0], &step_w, &step_b);
    assert_eq!(net.get_weight(0, 0), &bits(&[1., 0.]));
    assert_eq!(net.get_bias(0, 0), 0f32.to_bits());
}

#[test]
fn lsh_gating_suppresses_a_hidden_unit() {
    let net = gated();
    let x = bits(&[1., 0.]);
    assert_eq!(sorted(net.lsh(0).query_bucket_ids(&x).unwrap()), vec![0, 1]);
    let (neur, inputs) = net.forward(&x, &unit);
    assert_eq!(neur.len(), 2);
    assert_eq!(inputs.len(), 2);
    assert_eq!(inputs[0], x);
    assert!(neur[0].len() <= 2);
    assert_eq!(ids(&neur[0]), vec![0, 1]);
    // the last layer computes all its perceptrons, in order
    assert_eq!(neur[1].iter().map(|c| c.j).collect::<Vec<_>>(), vec![0, 1]);
    for c in &neur[0] {
        assert_eq!(c.i, 0);
        assert_eq!(c.k, c.j);
        assert_eq!(c.delta, 0);
    }
    let by_id = |j: usize| neur[0].iter().find(|c| c.j == j).unwrap();
    assert_eq!((f(by_id(0).z), f(by_id(0).a)), (1., 1.));
    assert_eq!((f(by_id(1).z), f(by_id(1).a)), (2., 2.));
    // the unit that did not fire hands on zero
    assert_eq!(inputs[1], bits(&[1., 2., 0.]));
    assert_eq!(f(neur[1][0].z), -0.5);
    assert_eq!(f(neur[1][0].a), 1. / (1. + 0.5f32.exp()));
    assert_eq!(f(neur[1][1].z), 1.);
    assert_eq!((neur[1][0].k, neur[1][1].k), (3, 4));
}

#[test]
fn last_layer_is_dense_whatever_the_index_holds() {
    let net = gated();
    for x in [[1., 0.], [-1., -1.], [-1., 1.], [0., 0.], [5., -3.]] {
        let (neur, _) = net.forward(&bits(&x), &unit);
        assert_eq!(neur[1].iter().map(|c| c.j).collect::<Vec<_>>(), vec![0, 1]);
    }
}

#[test]
fn empty_bucket_gives_no_neurons_and_a_zero_input() {
    let net = gated();
    // hashes [-1, 1] in the hidden index: no perceptron is filed there
    let x = bits(&[-1., 1.]);
    assert_eq!(net.lsh(0).query_bucket_ids(&x), Ok(vec![]));
    let (neur, inputs) = net.forward(&x, &unit);
    assert!(neur[0].is_empty());
    assert_eq!(inputs[1], bits(&[0., 0., 0.]));
    assert_eq!(neur[1].len(), 2);
    for c in &neur[1] {
        assert_eq!(f(c.z), 0.);
        assert_eq!(f(c.a), 0.5);
    }
}

#[test]
fn forward_is_deterministic() {
    let net = gated();
    let x = bits(&[1., 0.]);
    let (n1, i1) = net.forward(&x, &unit);
    let (n2, i2) = net.forward(&x, &unit);
    assert_eq!(i1, i2);
    for (l1, l2) in n1.iter().zip(n2.iter()) {
        assert_eq!(ids(l1), ids(l2));
        for c in l1 {
            let d = l2.iter().find(|d| d.j == c.j).unwrap();
            assert_eq!((c.z, c.a, c.k), (d.z, d.a, d.k));
        }
    }
}

#[test]
fn update_with_zero_delta_keeps_parameters() {
    let mut net = gated();
    net.set_bias(0, 1, 0.25f32.to_bits());
    let x = bits(&[1., 0.]);
    let (neur, inputs) = net.forward(&x, &unit);
    for (layer, input) in inputs.iter().enumerate() {
        net.update_param(input, &neur[layer], &step_w, &step_b);
    }
    let fresh = gated();
    for (layer, size) in [(0usize, 3usize), (1, 2)] {
        for j in 0..size {
            assert_eq!(net.get_weight(layer, j), fresh.get_weight(layer, j));
        }
    }
    assert_eq!(net.get_bias(0, 1), 0.25f32.to_bits());
    assert_eq!(net.get_bias(0, 0), 0);
}

#[test]
fn update_param_steps_the_listed_perceptrons() {
    let mut net = gated();
    let x = bits(&[1., 0.]);
    let n = |j: usize, delta: f32| Neuron { i: 0, j, k: j, z: 0, a: 0, delta: delta.to_bits() };
    net.update_param(&x, &vec![n(0, 2.), n(2, -4.)], &step_w, &step_b);
    // w - lr * delta * x, with lr = 0.5
    assert_eq!(net.get_weight(0, 0), &bits(&[0., 1.]));
    assert_eq!(net.get_weight(0, 1), &bits(&[2., 0.5]));
    assert_eq!(net.get_weight(0, 2), &bits(&[1., -1.]));
    assert_eq!(f(net.get_bias(0, 0)), -1.);
    assert_eq!(f(net.get_bias(0, 1)), 0.);
    assert_eq!(f(net.get_bias(0, 2)), 2.);
    // the backup and the arena's size stay
    assert_eq!(net.get_weight_original(0, 0), &bits(&[1., 1.]));
    assert_eq!(net.pool().len(), net.pool().backup_len());
}

#[test]
fn rehash_reconciles_an_updated_weight() {
    let mut net = gated();
    let old_w = bits(&[1., 1.]);
    let new_w = bits(&[-3., -1.]);
    net.set_weight(0, 0, new_w.clone());
    // before: the index files the perceptron under the weight it saw
    assert!(net.lsh(0).query_bucket_ids(&old_w).unwrap().contains(&0));
    assert!(!net.lsh(0).query_bucket_ids(&new_w).unwrap().contains(&0));
    assert_eq!(net.get_weight_original(0, 0), &old_w);
    net.rehash();
    assert!(!net.lsh(0).query_bucket_ids(&old_w).unwrap().contains(&0));
    assert_eq!(sorted(net.lsh(0).query_bucket_ids(&new_w).unwrap()), vec![0, 2]);
    assert_eq!(sorted(net.lsh(0).query_bucket_ids(&old_w).unwrap()), vec![1]);
    assert_eq!(net.get_weight_original(0, 0), &new_w);
    assert_eq!(net.get_weight(0, 0), &new_w);
    // the others keep their backup, and every slot has one
    assert_eq!(net.get_weight_original(0, 1), &bits(&[2., 0.5]));
    assert_eq!(net.pool().len(), 5);
    assert_eq!(net.pool().backup_len(), 5);
}

#[test]
fn rehash_after_backprop_and_update() {
    let mut net = gated();
    let x = bits(&[1., 0.]);
    let (mut neur, inputs) = net.forward(&x, &unit);
    let loss = net.backprop(&mut neur, &vec![1, 0], &term, &plus, &out_delta, &back);
    assert!(f(loss) > 0.);
    for (layer, input) in inputs.iter().enumerate() {
        net.update_param(input, &neur[layer], &step_w, &step_b);
    }
    assert_eq!(net.pool().len(), net.pool().backup_len());
    let changed: Vec<usize> =
        (0..3).filter(|j| net.get_weight(0, *j) != net.get_weight_original(0, *j)).collect();
    assert!(!changed.is_empty());
    // the suppressed unit took no part and keeps its weight
    assert!(!changed.contains(&2));
    net.rehash();
    assert_eq!(net.pool().len(), net.pool().backup_len());
    for (layer, size) in [(0usize, 3usize), (1, 2)] {
        for j in 0..size {
            assert_eq!(net.get_weight(layer, j), net.get_weight_original(layer, j));
            let found = net.lsh(layer).query_bucket_ids(net.get_weight(layer, j)).unwrap();
            assert!(found.contains(&(j as u32)));
        }
    }
}

#[test]
fn rehash_twice_changes_nothing_more() {
    let mut net = gated();
    net.set_weight(0, 1, bits(&[-2., -0.5]));
    net.set_weight(1, 0, bits(&[-0.5, 0.5, -1.]));
    net.rehash();
    let probes = [[1., 1.], [-1., -1.], [1., -1.], [-1., 1.]];
    let before: Vec<Vec<u32>> =
        probes.iter().map(|p| sorted(net.lsh(0).query_bucket_ids(&bits(p)).unwrap())).collect();
    let backups: Vec<Vec<u32>> = (0..3).map(|j| net.get_weight_original(0, j).clone()).collect();
    net.rehash();
    let after: Vec<Vec<u32>> =
        probes.iter().map(|p| sorted(net.lsh(0).query_bucket_ids(&bits(p)).unwrap())).collect();
    assert_eq!(before, after);
    assert_eq!(before, vec![vec![0], vec![1, 2], vec![], vec![]]);
    for j in 0..3 {
        assert_eq!(net.get_weight_original(0, j), &backups[j]);
    }
    assert_eq!(net.get_weight_original(1, 0), &bits(&[-0.5, 0.5, -1.]));
}

#[test]
fn backprop_gives_shares_layer_by_layer() {
    let net = gated();
    let x = bits(&[1., 0.]);
    let (mut neur, _) = net.forward(&x, &unit);
    neur[0].sort_by_key(|c| c.j);
    let a0 = f(neur[1][0].a);
    let a1 = f(neur[1][1].a);
    let z0 = f(neur[1][0].z);
    let z1 = f(neur[1][1].z);
    let loss = net.backprop(&mut neur, &vec![1, 0], &term, &plus, &out_delta, &back);
    assert_eq!(f(loss), 0. + (1. - a0).powi(2) / 2. + (0. - a1).powi(2) / 2.);
    let d0 = a0 - 1.;
    let d1 = a1 - 0.;
    assert_eq!(f(neur[1][0].delta), d0);
    assert_eq!(f(neur[1][1].delta), d1);
    let s = |z: f32| prime(Activation::Sigmoid, z);
    // hidden unit j takes d0 * W[1,0][j] * s'(z0), then d1 * W[1,1][j] * s'(z1)
    assert_eq!(f(neur[0][0].delta), 0. + d0 * 0.5 * s(z0) + d1 * -1. * s(z1));
    assert_eq!(f(neur[0][1].delta), 0. + d0 * -0.5 * s(z0) + d1 * 1. * s(z1));
    // nothing but the shares changes
    assert_eq!(ids(&neur[0]), vec![0, 1]);
    assert_eq!((f(neur[0][0].a), f(neur[0][1].a)), (1., 2.));
}

#[test]
fn backprop_cancellation() {
    let mut net = Network::new(
        vec![1, 2, 1],
        vec![Activation::ReLU, Activation::Linear],
        vec![index(&[&[1.]]), index(&[&[1., 1.]])],
        &vec![vec![bits(&[2.]), bits(&[2.])], vec![bits(&[1., -1.])]],
        0.1f32.to_bits(),
        "mse",
    )
    .unwrap();
    let x = bits(&[1.5]);
    let (mut neur, inputs) = net.forward(&x, &unit);
    assert_eq!(ids(&neur[0]), vec![0, 1]);
    assert_eq!(f(neur[0][0].a), f(neur[0][1].a));
    assert_eq!(f(neur[1][0].a), 0.);
    let loss = net.backprop(&mut neur, &vec![0], &term, &plus, &out_delta, &back);
    assert_eq!(f(loss), 0.);
    assert_eq!(f(neur[1][0].delta), 0.);
    assert_eq!(f(neur[0][0].delta), 0.);
    assert_eq!(f(neur[0][1].delta), 0.);
    for (layer, input) in inputs.iter().enumerate() {
        net.update_param(input, &neur[layer], &step_w, &step_b);
    }
    assert_eq!(net.get_weight(0, 0), &bits(&[2.]));
    assert_eq!(net.get_weight(0, 1), &bits(&[2.]));
    assert_eq!(net.get_weight(1, 0), &bits(&[1., -1.]));
    for (layer, j) in [(0, 0), (0, 1), (1, 0)] {
        assert_eq!(f(net.get_bias(layer, j)), 0.);
    }
}

#[test]
fn apply_layer_is_dense_only_when_last() {
    let net = gated();
    let x = bits(&[-1., 1.]);
    // the hidden layer as a gated layer: nothing fires for this input
    assert!(net.apply_layer(0, &x, false, &unit).is_empty());
    // the same layer computed as a last layer: every perceptron, in order
    let all = net.apply_layer(0, &x, true, &unit);
    assert_eq!(all.iter().map(|c| c.j).collect::<Vec<_>>(), vec![0, 1, 2]);
    assert_eq!(all.iter().map(|c| f(c.z)).collect::<Vec<_>>(), vec![0., -1.5, 0.]);
    assert_eq!(all.iter().map(|c| f(c.a)).collect::<Vec<_>>(), vec![0., 0., 0.]);
    assert_eq!(all.iter().map(|c| c.k).collect::<Vec<_>>(), vec![0, 1, 2]);
}

#[test]
fn rehash_one_touches_one_perceptron() {
    let mut net = gated();
    net.set_weight(0, 0, bits(&[-1., -3.]));
    net.set_weight(0, 1, bits(&[-2., -2.]));
    net.rehash_one(0, 1);
    assert_eq!(net.get_weight_original(0, 1), &bits(&[-2., -2.]));
    assert_eq!(net.get_weight_original(0, 0), &bits(&[1., 1.]));
    assert_eq!(sorted(net.lsh(0).query_bucket_ids(&bits(&[1., 1.])).unwrap()), vec![0]);
    assert_eq!(sorted(net.lsh(0).query_bucket_ids(&bits(&[-1., -1.])).unwrap()), vec![1, 2]);
    // a weight that the index has seen: nothing to do
    net.rehash_one(0, 2);
    assert_eq!(sorted(net.lsh(0).query_bucket_ids(&bits(&[-1., -1.])).unwrap()), vec![1, 2]);
}
