//! The sparsely activated network: layers of perceptrons whose weights live
//! in an arena, and an index per layer that picks the perceptrons of a pass.
//!
//! What a perceptron computes is arithmetic on real numbers and is given as
//! a function value; which perceptrons compute, on what, and where the
//! results go is decided here.
use crate::arena::MemArena;
use crate::lsh::filed_as;
use crate::lsh::LSH;
use crate::table::general::map_get;
use crate::table::general::map_insert;
use crate::table::general::map_new;
use crate::table::mem::in_bucket;
use crate::table::mem::moved;
use fnv::FnvHashMap;
use vstd::prelude::*;
use vstd::string::StringExecFns;

verus! {

/// The kinds of activation function.
#[derive(Debug, Clone, Copy, PartialEq, Eq, Structural)]
pub enum Activation {
    /// The greater of zero and the argument.
    ReLU,
    /// The logistic function.
    Sigmoid,
    /// The argument itself.
    Linear,
}

/// The kinds of loss function.
#[derive(Debug, Clone, Copy, PartialEq, Eq, Structural)]
pub enum Loss {
    /// Mean squared error.
    MSE,
    /// Negative log likelihood.
    NLL,
}

/// Why a network cannot be made.
#[derive(Debug, Clone, Copy, PartialEq, Eq, Structural)]
pub enum ConfigError {
    /// There is no layer dimension.
    NoDimensions,
    /// There is not one activation per layer after the input.
    Activations,
    /// A layer has more perceptrons than there are identifiers.
    TooLarge,
    /// There is not one index per layer after the input, or an index is
    /// for another dimension than the input of its layer, or holds vectors
    /// already.
    Indexes,
    /// There is not one weight per perceptron, or a weight has not the
    /// length of its layer's input.
    Weights,
    /// The loss is neither "mse" nor "nll".
    UnknownLoss,
}

/// A perceptron that took part in a pass.
#[derive(Debug, Clone, Copy)]
pub struct Neuron {
    /// The layer.
    pub i: usize,
    /// The perceptron in the layer: its identifier in the layer's index.
    pub j: usize,
    /// The slot of its weight in the arena.
    pub k: usize,
    /// Its input times its weight, plus its bias.
    pub z: u32,
    /// Its activation.
    pub a: u32,
    /// Its share of the error.
    pub delta: u32,
}

/// The input that a layer of `size` perceptrons hands to the next: the
/// activation of each perceptron that took part, and zero for the others.
/// Where a perceptron is listed twice, the later listing counts.
pub open spec fn sparse_input(neurons: Seq<Neuron>, size: nat) -> Seq<u32>
    decreases neurons.len(),
{
    if neurons.len() == 0 {
        Seq::new(size, |j: int| 0u32)
    } else if neurons.last().j < size {
        sparse_input(neurons.drop_last(), size).update(neurons.last().j as int, neurons.last().a)
    } else {
        sparse_input(neurons.drop_last(), size)
    }
}

/// The input that a layer hands on has the length of the layer.
pub proof fn lemma_sparse_input_len(neurons: Seq<Neuron>, size: nat)
    ensures
        sparse_input(neurons, size).len() == size,
    decreases neurons.len(),
{
    if neurons.len() > 0 {
        lemma_sparse_input_len(neurons.drop_last(), size);
    }
}

/// A layer in which no perceptron took part hands on zeros.
pub proof fn lemma_sparse_input_of_none(size: nat)
    ensures
        sparse_input(Seq::<Neuron>::empty(), size) == Seq::new(size, |j: int| 0u32),
{
}

/// A perceptron that did not take part hands on zero.
pub proof fn lemma_sparse_input_absent(neurons: Seq<Neuron>, size: nat, j: int)
    requires
        0 <= j < size,
        forall|n: int| 0 <= n < neurons.len() ==> (#[trigger] neurons[n]).j != j,
    ensures
        sparse_input(neurons, size)[j] == 0,
    decreases neurons.len(),
{
    if neurons.len() > 0 {
        let head = neurons.drop_last();
        assert forall|n: int| 0 <= n < head.len() implies (#[trigger] head[n]).j != j by {
            assert(head[n] == neurons[n]);
        }
        lemma_sparse_input_absent(head, size, j);
        lemma_sparse_input_len(head, size);
        assert(neurons[neurons.len() - 1].j != j);
    }
}

/// A perceptron that took part hands on its activation, as its last
/// listing gives it.
pub proof fn lemma_sparse_input_present(neurons: Seq<Neuron>, size: nat, n: int)
    requires
        0 <= n < neurons.len(),
        neurons[n].j < size,
        forall|m: int| n < m < neurons.len() ==> (#[trigger] neurons[m]).j != neurons[n].j,
    ensures
        sparse_input(neurons, size)[neurons[n].j as int] == neurons[n].a,
    decreases neurons.len(),
{
    let head = neurons.drop_last();
    lemma_sparse_input_len(head, size);
    if n < neurons.len() - 1 {
        assert(head[n] == neurons[n]);
        assert forall|m: int| n < m < head.len() implies (#[trigger] head[m]).j != head[n].j by {
            assert(head[m] == neurons[m]);
        }
        lemma_sparse_input_present(head, size, n);
        assert(neurons[neurons.len() - 1].j != neurons[n].j);
    }
}

/// Whether the list names perceptron `j`.
pub open spec fn names(list: Seq<Neuron>, j: usize) -> bool {
    exists|m: int| 0 <= m < list.len() && (#[trigger] list[m]).j == j
}

/// Whether the list names perceptron `j` with activation `a`.
pub open spec fn names_with(list: Seq<Neuron>, j: usize, a: u32) -> bool {
    exists|m: int| 0 <= m < list.len() && (#[trigger] list[m]).j == j && list[m].a == a
}

/// Two lists that name the same perceptrons, each once, with the same
/// activations, hand on the same input, in whatever order they name them.
pub proof fn lemma_sparse_input_agrees(first: Seq<Neuron>, second: Seq<Neuron>, size: nat)
    requires
        ids_of(first).no_duplicates(),
        ids_of(second).no_duplicates(),
        forall|n: int|
            0 <= n < first.len() ==> names_with(second, (#[trigger] first[n]).j, first[n].a),
        forall|m: int| 0 <= m < second.len() ==> names(first, (#[trigger] second[m]).j),
    ensures
        sparse_input(first, size) == sparse_input(second, size),
{
    lemma_sparse_input_len(first, size);
    lemma_sparse_input_len(second, size);
    assert forall|j: int| 0 <= j < size implies sparse_input(first, size)[j] == sparse_input(
        second,
        size,
    )[j] by {
        if exists|n: int| 0 <= n < first.len() && (#[trigger] first[n]).j == j {
            let n = choose|n: int| 0 <= n < first.len() && (#[trigger] first[n]).j == j;
            assert(names_with(second, first[n].j, first[n].a));
            let m = choose|m: int|
                0 <= m < second.len() && (#[trigger] second[m]).j == first[n].j && second[m].a
                    == first[n].a;
            assert forall|q: int| n < q < first.len() implies (#[trigger] first[q]).j
                != first[n].j by {
                assert(ids_of(first)[n] == first[n].j);
                assert(ids_of(first)[q] == first[q].j);
            }
            assert forall|q: int| m < q < second.len() implies (#[trigger] second[q]).j
                != second[m].j by {
                assert(ids_of(second)[m] == second[m].j);
                assert(ids_of(second)[q] == second[q].j);
            }
            lemma_sparse_input_present(first, size, n);
            lemma_sparse_input_present(second, size, m);
        } else {
            assert forall|m: int| 0 <= m < second.len() implies (#[trigger] second[m]).j != j by {
                if second[m].j == j {
                    assert(names(first, second[m].j));
                    let n = choose|n: int|
                        0 <= n < first.len() && (#[trigger] first[n]).j == second[m].j;
                    assert(first[n].j == j);
                }
            }
            lemma_sparse_input_absent(first, size, j);
            lemma_sparse_input_absent(second, size, j);
        }
    }
    assert(sparse_input(first, size) =~= sparse_input(second, size));
}

/// Builds the input of the next layer from the perceptrons that took part
/// in this one.
pub fn make_input_next_layer(prev_neur: &Vec<Neuron>, layer_size: usize) -> (layer: Vec<u32>)
    ensures
        layer@ == sparse_input(prev_neur@, layer_size as nat),
{
    let mut layer: Vec<u32> = Vec::with_capacity(layer_size);
    let mut j: usize = 0;
    while j < layer_size
        invariant
            j <= layer_size,
            layer@.len() == j,
            forall|m: int| 0 <= m < j ==> layer@[m] == 0,
        decreases layer_size - j,
    {
        layer.push(0);
        j += 1;
    }
    assert(layer@ =~= sparse_input(prev_neur@.take(0), layer_size as nat));
    let mut n: usize = 0;
    while n < prev_neur.len()
        invariant
            n <= prev_neur@.len(),
            layer@ == sparse_input(prev_neur@.take(n as int), layer_size as nat),
        decreases prev_neur@.len() - n,
    {
        proof {
            lemma_sparse_input_len(prev_neur@.take(n as int), layer_size as nat);
            assert(prev_neur@.take(n + 1).drop_last() =~= prev_neur@.take(n as int));
            assert(prev_neur@.take(n + 1).last() == prev_neur@[n as int]);
        }
        let c = &prev_neur[n];
        if c.j < layer_size {
            layer[c.j] = c.a;
        }
        n += 1;
    }
    assert(prev_neur@.take(prev_neur@.len() as int) =~= prev_neur@);
    layer
}

/// Whether `unit` may stand for what a perceptron computes: it accepts any
/// input and weight of one length, with any bias and activation.
pub open spec fn is_unit<F: Fn(&Vec<u32>, &Vec<u32>, u32, Activation) -> (u32, u32)>(
    unit: F,
) -> bool {
    forall|u: &Vec<u32>, w: &Vec<u32>, b: u32, act: Activation|
        u@.len() == w@.len() ==> #[trigger] call_requires(unit, (u, w, b, act))
}

/// Whether `unit` can return `z` and `a` for an input and a weight with
/// these components.
pub open spec fn unit_gives<F: Fn(&Vec<u32>, &Vec<u32>, u32, Activation) -> (u32, u32)>(
    unit: F,
    u: Seq<u32>,
    w: Seq<u32>,
    b: u32,
    act: Activation,
    z: u32,
    a: u32,
) -> bool {
    exists|x: &Vec<u32>, y: &Vec<u32>|
        x@ == u && y@ == w && #[trigger] call_ensures(unit, (x, y, b, act), (z, a))
}

/// Whether what `unit` returns depends on the components of the input and
/// the weight, the bias and the activation alone.
pub open spec fn is_deterministic<F: Fn(&Vec<u32>, &Vec<u32>, u32, Activation) -> (u32, u32)>(
    unit: F,
) -> bool {
    forall|u: Seq<u32>, w: Seq<u32>, b: u32, act: Activation, z: u32, a: u32, z2: u32, a2: u32|
        #[trigger] unit_gives(unit, u, w, b, act, z, a) && #[trigger] unit_gives(
            unit,
            u,
            w,
            b,
            act,
            z2,
            a2,
        ) ==> z == z2 && a == a2
}

/// Whether `step` may stand for the change of a weight: it accepts a weight
/// and an input of one length, with any share of the error and any
/// learning rate, and returns a weight of that length.
pub open spec fn is_weight_step<G: Fn(&Vec<u32>, &Vec<u32>, u32, u32) -> Vec<u32>>(step: G) -> bool {
    &&& forall|w: &Vec<u32>, u: &Vec<u32>, delta: u32, lr: u32|
        w@.len() == u@.len() ==> #[trigger] call_requires(step, (w, u, delta, lr))
    &&& forall|w: &Vec<u32>, u: &Vec<u32>, delta: u32, lr: u32, r: Vec<u32>| #[trigger]
        call_ensures(step, (w, u, delta, lr), r) ==> r@.len() == w@.len()
}

/// Whether `step` can return a weight with the components `r` for a weight
/// and an input with these components.
pub open spec fn weight_step_gives<G: Fn(&Vec<u32>, &Vec<u32>, u32, u32) -> Vec<u32>>(
    step: G,
    w: Seq<u32>,
    u: Seq<u32>,
    delta: u32,
    lr: u32,
    r: Seq<u32>,
) -> bool {
    exists|x: &Vec<u32>, y: &Vec<u32>, out: Vec<u32>|
        x@ == w && y@ == u && out@ == r && #[trigger] call_ensures(step, (x, y, delta, lr), out)
}

/// Whether `step` leaves a weight as it is where the share of the error is
/// zero.
pub open spec fn weight_step_rests<G: Fn(&Vec<u32>, &Vec<u32>, u32, u32) -> Vec<u32>>(
    step: G,
) -> bool {
    forall|w: &Vec<u32>, u: &Vec<u32>, lr: u32, r: Vec<u32>| #[trigger]
        call_ensures(step, (w, u, 0u32, lr), r) ==> r@ == w@
}

/// Whether `step` leaves a bias as it is where the share of the error is
/// zero.
pub open spec fn bias_step_rests<H: Fn(u32, u32, u32) -> u32>(step: H) -> bool {
    forall|b: u32, lr: u32, r: u32| #[trigger] call_ensures(step, (b, 0u32, lr), r) ==> r == b
}

/// Whether every listed perceptron has zero for its share of the error.
pub open spec fn all_at_rest(neurons: Seq<Neuron>) -> bool {
    forall|n: int| 0 <= n < neurons.len() ==> (#[trigger] neurons[n]).delta == 0
}

/// Whether `step` may stand for the change of a bias: it accepts any bias,
/// share of the error and learning rate.
pub open spec fn is_bias_step<H: Fn(u32, u32, u32) -> u32>(step: H) -> bool {
    forall|b: u32, delta: u32, lr: u32| #[trigger] call_requires(step, (b, delta, lr))
}

/// Whether `f` accepts every loss term request.
pub open spec fn is_loss_term<T: Fn(u8, u32, usize, Loss, Activation) -> u32>(f: T) -> bool {
    forall|y: u8, a: u32, count: usize, loss: Loss, act: Activation| #[trigger]
        call_requires(f, (y, a, count, loss, act))
}

/// Whether `f` accepts any two numbers.
pub open spec fn is_sum<A: Fn(u32, u32) -> u32>(f: A) -> bool {
    forall|x: u32, y: u32| #[trigger] call_requires(f, (x, y))
}

/// Whether `f` accepts every request for the share of an output.
pub open spec fn is_output_delta<O: Fn(u8, u32, Loss, Activation) -> u32>(f: O) -> bool {
    forall|y: u8, a: u32, loss: Loss, act: Activation| #[trigger]
        call_requires(f, (y, a, loss, act))
}

/// Whether `f` accepts every request to hand a share of the error back.
pub open spec fn is_back_step<B: Fn(u32, u32, u32, u32, Activation) -> u32>(f: B) -> bool {
    forall|acc: u32, delta: u32, w: u32, z: u32, act: Activation| #[trigger]
        call_requires(f, (acc, delta, w, z, act))
}

/// Whether `acc` can be the loss of the first `n` outputs: zero for none,
/// and for each output in order what `sum` returns for the loss so far and
/// the term that `term` returns for the output, the truth of its class and
/// the number of all outputs.
pub open spec fn is_loss_sum<T: Fn(u8, u32, usize, Loss, Activation) -> u32, A: Fn(u32, u32) -> u32>(
    term: T,
    sum: A,
    outputs: Seq<Neuron>,
    y: Seq<u8>,
    loss: Loss,
    act: Activation,
    n: int,
    acc: u32,
) -> bool
    decreases n,
{
    if n <= 0 {
        acc == 0
    } else {
        exists|prev: u32, t: u32|
            is_loss_sum(term, sum, outputs, y, loss, act, n - 1, prev) && call_ensures(
                term,
                (y[outputs[n - 1].j as int], outputs[n - 1].a, outputs.len() as usize, loss, act),
                t,
            ) && #[trigger] call_ensures(sum, (prev, t), acc)
    }
}

/// Whether no perceptron is listed twice.
pub open spec fn listed_once(neurons: Seq<Neuron>) -> bool {
    forall|n: int, m: int|
        0 <= n < m < neurons.len() ==> !((#[trigger] neurons[n]).i == (#[trigger] neurons[m]).i
            && neurons[n].j == neurons[m].j)
}

/// Whether perceptron `j` of layer `i` is listed.
pub open spec fn lists(neurons: Seq<Neuron>, i: int, j: u32) -> bool {
    exists|n: int| 0 <= n < neurons.len() && (#[trigger] neurons[n]).i == i && neurons[n].j == j
}

/// The perceptrons of a list, in order.
pub open spec fn ids_of(neurons: Seq<Neuron>) -> Seq<usize> {
    Seq::new(neurons.len(), |n: int| neurons[n].j)
}

/// The loss of that name.
pub open spec fn loss_named(name: Seq<char>) -> Option<Loss> {
    if name == "mse"@ {
        Some(Loss::MSE)
    } else if name == "nll"@ {
        Some(Loss::NLL)
    } else {
        None
    }
}

/// Reads the name of a loss.
pub fn parse_loss(name: &str) -> (r: Option<Loss>)
    ensures
        r == loss_named(name@),
{
    let name = String::from_str(name);
    if name == String::from_str("mse") {
        Some(Loss::MSE)
    } else if name == String::from_str("nll") {
        Some(Loss::NLL)
    } else {
        None
    }
}

/// The number of perceptrons in the layers before layer `i`, which is the
/// slot of the first perceptron of layer `i`.
pub open spec fn first_slot(dims: Seq<usize>, i: int) -> int
    decreases i,
{
    if i <= 0 {
        0
    } else {
        first_slot(dims, i - 1) + dims[i]
    }
}

/// The weight in the slot of perceptron `j` of layer `i`, where the slots
/// were given out layer by layer.
pub open spec fn weight_at(pool: Seq<Seq<u32>>, dims: Seq<usize>, i: int, j: int) -> Seq<u32> {
    pool[first_slot(dims, i) + j]
}

/// No layer starts before the first slot.
pub proof fn lemma_first_slot_nonnegative(dims: Seq<usize>, i: int)
    ensures
        first_slot(dims, i) >= 0,
    decreases i,
{
    if i > 0 {
        lemma_first_slot_nonnegative(dims, i - 1);
    }
}

/// The slots of a later layer come after those of an earlier one.
pub proof fn lemma_first_slot_grows(dims: Seq<usize>, i: int, k: int)
    requires
        0 <= i < k,
    ensures
        first_slot(dims, i) + dims[i + 1] <= first_slot(dims, k),
    decreases k,
{
    if i + 1 < k {
        lemma_first_slot_grows(dims, i, k - 1);
    }
}

/// Whether two weights are the same in every bit.
pub fn same_bits(a: &Vec<u32>, b: &Vec<u32>) -> (r: bool)
    ensures
        r == (a@ == b@),
{
    if a.len() != b.len() {
        return false;
    }
    let mut i: usize = 0;
    while i < a.len()
        invariant
            a@.len() == b@.len(),
            i <= a@.len(),
            forall|j: int| 0 <= j < i ==> a@[j] == b@[j],
        decreases a@.len() - i,
    {
        if a[i] != b[i] {
            return false;
        }
        i += 1;
    }
    assert(a@ =~= b@);
    true
}

/// Whether there is one index per layer after the input, each empty and for
/// the dimension of the input of its layer.
pub open spec fn indexes_fit<D: Fn(&Vec<u32>, &Vec<u32>) -> u32>(
    dims: Seq<usize>,
    indexes: Seq<LSH<D>>,
) -> bool {
    &&& indexes.len() == dims.len() - 1
    &&& forall|i: int|
        0 <= i < indexes.len() ==> (#[trigger] indexes[i]).dim() == dims[i] && indexes[i].next_id()
            == 0
}

/// Whether every layer after the input has no more perceptrons than there
/// are identifiers.
pub open spec fn layers_fit(dims: Seq<usize>) -> bool {
    forall|i: int| 1 <= i < dims.len() ==> #[trigger] dims[i] <= u32::MAX
}

/// Whether there is one weight per perceptron, each of the length of the
/// input of its layer.
pub open spec fn weights_fit(dims: Seq<usize>, weights: Seq<Vec<Vec<u32>>>) -> bool {
    &&& weights.len() == dims.len() - 1
    &&& forall|i: int|
        0 <= i < weights.len() ==> (#[trigger] weights[i])@.len() == dims[i + 1]
    &&& forall|i: int, j: int|
        0 <= i < weights.len() && 0 <= j < weights[i]@.len() ==> (#[trigger] weights[i]@[j])@.len()
            == dims[i]
}

/// What is wrong with a configuration, if anything: the first of the
/// errors, in the order in which they are listed, that applies.
pub open spec fn config_error<D: Fn(&Vec<u32>, &Vec<u32>) -> u32>(
    dims: Seq<usize>,
    activations: Seq<Activation>,
    indexes: Seq<LSH<D>>,
    weights: Seq<Vec<Vec<u32>>>,
    loss: Seq<char>,
) -> Option<ConfigError> {
    if dims.len() == 0 {
        Some(ConfigError::NoDimensions)
    } else if activations.len() != dims.len() - 1 {
        Some(ConfigError::Activations)
    } else if !layers_fit(dims) {
        Some(ConfigError::TooLarge)
    } else if !indexes_fit(dims, indexes) {
        Some(ConfigError::Indexes)
    } else if !weights_fit(dims, weights) {
        Some(ConfigError::Weights)
    } else if loss_named(loss).is_none() {
        Some(ConfigError::UnknownLoss)
    } else {
        None
    }
}

/// Checks the indexes against the dimensions.
pub fn check_indexes<D: Fn(&Vec<u32>, &Vec<u32>) -> u32>(
    dimensions: &Vec<usize>,
    indexes: &Vec<LSH<D>>,
) -> (r: bool)
    requires
        dimensions@.len() >= 1,
    ensures
        r == indexes_fit(dimensions@, indexes@),
{
    if indexes.len() != dimensions.len() - 1 {
        return false;
    }
    let mut i: usize = 0;
    while i < indexes.len()
        invariant
            indexes@.len() == dimensions@.len() - 1,
            i <= indexes@.len(),
            forall|l: int|
                0 <= l < i ==> (#[trigger] indexes@[l]).dim() == dimensions@[l]
                    && indexes@[l].next_id() == 0,
        decreases indexes@.len() - i,
    {
        if indexes[i].dimension() != dimensions[i] || indexes[i].counter() != 0 {
            return false;
        }
        i += 1;
    }
    true
}

/// Checks the sizes of the layers against the number of identifiers.
pub fn check_layers(dimensions: &Vec<usize>) -> (r: bool)
    ensures
        r == layers_fit(dimensions@),
{
    let mut i: usize = 1;
    while i < dimensions.len()
        invariant
            1 <= i,
            forall|l: int| 1 <= l < i && l < dimensions@.len() ==> #[trigger] dimensions@[l] <= u32::MAX,
        decreases dimensions@.len() - i,
    {
        if dimensions[i] > 0xffff_ffff {
            return false;
        }
        i += 1;
    }
    true
}

/// Checks the weights against the dimensions.
pub fn check_weights(dimensions: &Vec<usize>, weights: &Vec<Vec<Vec<u32>>>) -> (r: bool)
    requires
        dimensions@.len() >= 1,
    ensures
        r == weights_fit(dimensions@, weights@),
{
    if weights.len() != dimensions.len() - 1 {
        return false;
    }
    let mut i: usize = 0;
    while i < weights.len()
        invariant
            weights@.len() == dimensions@.len() - 1,
            i <= weights@.len(),
            forall|l: int| 0 <= l < i ==> (#[trigger] weights@[l])@.len() == dimensions@[l + 1],
            forall|l: int, j: int|
                0 <= l < i && 0 <= j < weights@[l]@.len() ==> (#[trigger] weights@[l]@[j])@.len()
                    == dimensions@[l],
        decreases weights@.len() - i,
    {
        if weights[i].len() != dimensions[i + 1] {
            return false;
        }
        let mut j: usize = 0;
        while j < weights[i].len()
            invariant
                i < weights@.len(),
                weights@.len() == dimensions@.len() - 1,
                j <= weights@[i as int]@.len(),
                forall|n: int|
                    0 <= n < j ==> (#[trigger] weights@[i as int]@[n])@.len() == dimensions@[i as int],
            decreases weights@[i as int]@.len() - j,
        {
            if weights[i][j].len() != dimensions[i] {
                return false;
            }
            j += 1;
        }
        i += 1;
    }
    true
}

/// Makes the perceptrons of one layer, one per weight: each is stored in
/// the index, which gives it its identifier, its weight goes into a new slot
/// of the arena, and its bias is zero. Returns the slot of each perceptron,
/// the bias of each, and the perceptrons in order.
pub fn build_layer<D: Fn(&Vec<u32>, &Vec<u32>) -> u32>(
    lsh: &mut LSH<D>,
    pool: &mut MemArena,
    weights: &Vec<Vec<u32>>,
) -> (r: (FnvHashMap<u32, usize>, FnvHashMap<u32, u32>, Vec<u32>))
    requires
        old(lsh).wf(),
        old(lsh).next_id() == 0,
        weights@.len() <= u32::MAX,
        forall|j: int| 0 <= j < weights@.len() ==> (#[trigger] weights@[j])@.len() == old(lsh).dim(),
        old(pool).wf(),
        old(pool).free().len() == 0,
    ensures
        final(lsh).wf(),
        final(lsh).hashers() == old(lsh).hashers(),
        final(lsh).inner_prod() == old(lsh).inner_prod(),
        final(lsh).dim() == old(lsh).dim(),
        final(lsh).next_id() == weights@.len(),
        forall|j: u32| j < weights@.len() ==> #[trigger] final(lsh).filed_under(j, weights@[j as int]@),
        final(pool).wf(),
        final(pool).free().len() == 0,
        final(pool).backup() == old(pool).backup(),
        final(pool).weights().len() == old(pool).weights().len() + weights@.len(),
        forall|k: int|
            0 <= k < old(pool).weights().len() ==> #[trigger] final(pool).weights()[k] == old(
                pool,
            ).weights()[k],
        forall|j: int|
            0 <= j < weights@.len() ==> #[trigger] final(pool).weights()[old(pool).weights().len()
                + j] == weights@[j]@,
        forall|j: u32| #[trigger] r.0@.contains_key(j) <==> j < weights@.len(),
        forall|j: u32| j < weights@.len() ==> #[trigger] r.0@[j] == old(pool).weights().len() + j,
        forall|j: u32| #[trigger] r.1@.contains_key(j) <==> j < weights@.len(),
        forall|j: u32| j < weights@.len() ==> #[trigger] r.1@[j] == 0,
        r.2@ == Seq::new(weights@.len(), |j: int| j as u32),
{
    let mut lsh2pool_i: FnvHashMap<u32, usize> = map_new();
    let mut lsh2bias_i: FnvHashMap<u32, u32> = map_new();
    let mut w_idx: Vec<u32> = Vec::with_capacity(weights.len());
    let ghost base = pool.weights().len();
    let mut j: usize = 0;
    while j < weights.len()
        invariant
            old(lsh).wf(),
            lsh.wf(),
            lsh.hashers() == old(lsh).hashers(),
            lsh.inner_prod() == old(lsh).inner_prod(),
            lsh.dim() == old(lsh).dim(),
            lsh.next_id() == j,
            weights@.len() <= u32::MAX,
            j <= weights@.len(),
            forall|n: int| 0 <= n < weights@.len() ==> (#[trigger] weights@[n])@.len() == lsh.dim(),
            forall|n: u32| n < j ==> #[trigger] lsh.filed_under(n, weights@[n as int]@),
            pool.wf(),
            pool.free().len() == 0,
            pool.backup() == old(pool).backup(),
            base == old(pool).weights().len(),
            pool.weights().len() == base + j,
            forall|k: int| 0 <= k < base ==> #[trigger] pool.weights()[k] == old(pool).weights()[k],
            forall|n: int| 0 <= n < j ==> #[trigger] pool.weights()[base + n] == weights@[n]@,
            forall|n: u32| #[trigger] lsh2pool_i@.contains_key(n) <==> n < j,
            forall|n: u32| n < j ==> #[trigger] lsh2pool_i@[n] == base + n,
            forall|n: u32| #[trigger] lsh2bias_i@.contains_key(n) <==> n < j,
            forall|n: u32| n < j ==> #[trigger] lsh2bias_i@[n] == 0,
            w_idx@.len() == j,
            forall|n: int| 0 <= n < j ==> w_idx@[n] == n as u32,
        decreases weights@.len() - j,
    {
        let p = &weights[j];
        let ghost index_before = *lsh;
        let ghost pool_before = pool.weights();
        let lsh_idx: u32 = match lsh.store_vec(p) {
            Ok(idx) => idx,
            Err(_) => 0,
        };
        let pool_idx: usize = pool.add(p.clone());
        map_insert(&mut lsh2pool_i, lsh_idx, pool_idx);
        map_insert(&mut lsh2bias_i, lsh_idx, 0);
        w_idx.push(lsh_idx);
        proof {
            LSH::lemma_stored_is_filed(&index_before, &*lsh, p@);
            assert forall|n: u32| n < j + 1 implies #[trigger] lsh.filed_under(
                n,
                weights@[n as int]@,
            ) by {
                if n < j {
                    assert(index_before.filed_under(n, weights@[n as int]@));
                    LSH::lemma_store_keeps_others(
                        &index_before,
                        &*lsh,
                        p@,
                        n,
                        weights@[n as int]@,
                    );
                }
            }
            assert forall|n: int| 0 <= n < j + 1 implies #[trigger] pool.weights()[base + n]
                == weights@[n]@ by {
                if n < j {
                    assert(pool_before[base + n] == weights@[n]@);
                }
            }
            assert forall|k: int| 0 <= k < base implies #[trigger] pool.weights()[k] == old(
                pool,
            ).weights()[k] by {
                assert(pool_before[k] == old(pool).weights()[k]);
            }
        }
        j += 1;
    }
    assert(w_idx@ =~= Seq::new(weights@.len(), |j: int| j as u32));
    (lsh2pool_i, lsh2bias_i, w_idx)
}

/// A feed-forward network whose hidden layers compute only the perceptrons
/// that their index finds for the input.
pub struct Network<D: Fn(&Vec<u32>, &Vec<u32>) -> u32> {
    w: Vec<Vec<u32>>,
    lsh2bias: Vec<FnvHashMap<u32, u32>>,
    activations: Vec<Activation>,
    lsh_store: Vec<LSH<D>>,
    n_layers: usize,
    pool: MemArena,
    lsh2pool: Vec<FnvHashMap<u32, usize>>,
    dimensions: Vec<usize>,
    lr: u32,
    loss: Loss,
}

impl<D: Fn(&Vec<u32>, &Vec<u32>) -> u32> Network<D> {
    /// The dimensions: of the input first, then of each layer.
    pub closed spec fn dims(&self) -> Seq<usize> {
        self.dimensions@
    }

    /// The activations, one per layer after the input.
    pub closed spec fn acts(&self) -> Seq<Activation> {
        self.activations@
    }

    /// The index of each layer.
    pub closed spec fn indexes(&self) -> Seq<LSH<D>> {
        self.lsh_store@
    }

    /// The arena of the weights.
    pub closed spec fn arena(&self) -> MemArena {
        self.pool
    }

    /// For each layer, the slot of each perceptron's weight.
    pub closed spec fn slots(&self) -> Seq<Map<u32, usize>> {
        Seq::new(self.lsh2pool@.len(), |i: int| self.lsh2pool@[i]@)
    }

    /// For each layer, the bias of each perceptron.
    pub closed spec fn biases(&self) -> Seq<Map<u32, u32>> {
        Seq::new(self.lsh2bias@.len(), |i: int| self.lsh2bias@[i]@)
    }

    /// For each layer, its perceptrons in the order in which they were made.
    pub closed spec fn pids(&self) -> Seq<Seq<u32>> {
        Seq::new(self.w@.len(), |i: int| self.w@[i]@)
    }

    /// The learning rate.
    pub closed spec fn rate(&self) -> u32 {
        self.lr
    }

    /// The loss.
    pub closed spec fn loss_kind(&self) -> Loss {
        self.loss
    }

    /// The number of dimensions is kept beside them.
    pub closed spec fn counted(&self) -> bool {
        self.n_layers == self.dimensions@.len()
    }

    /// The number of layers after the input.
    pub open spec fn depth(&self) -> int {
        self.dims().len() - 1
    }

    /// The slot of the weight of perceptron `j` of layer `i`.
    pub open spec fn slot(&self, i: int, j: u32) -> usize {
        self.slots()[i][j]
    }

    /// The weight of perceptron `j` of layer `i`.
    pub open spec fn weight(&self, i: int, j: u32) -> Seq<u32> {
        self.arena().weights()[self.slot(i, j) as int]
    }

    /// The weight of perceptron `j` of layer `i` as the index last saw it.
    pub open spec fn indexed_weight(&self, i: int, j: u32) -> Seq<u32> {
        self.arena().backup()[self.slot(i, j) as int]
    }

    /// The bias of perceptron `j` of layer `i`.
    pub open spec fn bias(&self, i: int, j: u32) -> u32 {
        self.biases()[i][j]
    }

    /// Whether layer `i` has a perceptron `j`.
    pub open spec fn has(&self, i: int, j: u32) -> bool {
        0 <= i < self.depth() && j < self.dims()[i + 1]
    }

    /// Layer `i` is in order: its index is for its input dimension and has
    /// given out one identifier per perceptron, from zero; each perceptron
    /// has a bias, and a slot that holds a weight of the input dimension,
    /// now and in the backup; and the index files each perceptron under the
    /// weight in its backup.
    pub open spec fn layer_wf(&self, i: int) -> bool {
        &&& self.indexes()[i].wf()
        &&& self.indexes()[i].dim() == self.dims()[i]
        &&& self.indexes()[i].next_id() == self.dims()[i + 1]
        &&& self.pids()[i] == Seq::new(self.dims()[i + 1] as nat, |j: int| j as u32)
        &&& forall|j: u32| #[trigger]
            self.slots()[i].contains_key(j) <==> j < self.dims()[i + 1]
        &&& forall|j: u32| #[trigger]
            self.biases()[i].contains_key(j) <==> j < self.dims()[i + 1]
        &&& forall|j: u32|
            j < self.dims()[i + 1] ==> {
                &&& (#[trigger] self.slot(i, j)) < self.arena().weights().len()
                &&& self.weight(i, j).len() == self.dims()[i]
                &&& self.indexed_weight(i, j).len() == self.dims()[i]
                &&& self.indexes()[i].filed_under(j, self.indexed_weight(i, j))
            }
    }

    /// The network is in order: there is an input dimension; every layer
    /// after it has an activation and is in order; every slot has its
    /// backup; and no two perceptrons share a slot.
    pub open spec fn wf(&self) -> bool {
        &&& self.counted()
        &&& self.dims().len() >= 1
        &&& self.acts().len() == self.depth()
        &&& self.indexes().len() == self.depth()
        &&& self.slots().len() == self.depth()
        &&& self.biases().len() == self.depth()
        &&& self.pids().len() == self.depth()
        &&& self.arena().wf()
        &&& self.arena().frozen()
        &&& forall|i: int| 0 <= i < self.depth() ==> #[trigger] self.layer_wf(i)
        &&& forall|i: int, j: u32, i2: int, j2: u32|
            self.has(i, j) && self.has(i2, j2) && (i != i2 || j != j2) ==> #[trigger] self.slot(
                i,
                j,
            ) != #[trigger] self.slot(i2, j2)
    }

    /// A network of the given dimensions, with one perceptron per weight:
    /// perceptron `j` of layer `i` has weight `weights[i][j]` and bias zero,
    /// and is stored in index `i` under that weight. The arena is frozen, so
    /// the index is up to date. Fails on a configuration that is not valid.
    pub fn new(
        dimensions: Vec<usize>,
        activations: Vec<Activation>,
        indexes: Vec<LSH<D>>,
        weights: &Vec<Vec<Vec<u32>>>,
        lr: u32,
        loss: &str,
    ) -> (r: Result<Self, ConfigError>)
        requires
            forall|i: int| 0 <= i < indexes@.len() ==> (#[trigger] indexes@[i]).wf(),
        ensures
            match r {
                Ok(net) => {
                    &&& config_error(dimensions@, activations@, indexes@, weights@, loss@).is_none()
                    &&& net.wf()
                    &&& net.up_to_date()
                    &&& net.dims() == dimensions@
                    &&& net.acts() == activations@
                    &&& net.rate() == lr
                    &&& Some(net.loss_kind()) == loss_named(loss@)
                    &&& forall|i: int|
                        0 <= i < net.depth() ==> (#[trigger] net.indexes()[i]).hashers()
                            == indexes@[i].hashers() && net.indexes()[i].inner_prod()
                            == indexes@[i].inner_prod()
                    &&& forall|i: int, j: u32|
                        net.has(i, j) ==> #[trigger] net.weight(i, j) == weights@[i]@[j as int]@
                    &&& forall|i: int, j: u32| net.has(i, j) ==> #[trigger] net.bias(i, j) == 0
                },
                Err(e) => config_error(dimensions@, activations@, indexes@, weights@, loss@)
                    == Some(e),
            },
    {
        let n_layers: usize = dimensions.len();
        if n_layers == 0 {
            return Err(ConfigError::NoDimensions);
        }
        if activations.len() != n_layers - 1 {
            return Err(ConfigError::Activations);
        }
        if !check_layers(&dimensions) {
            return Err(ConfigError::TooLarge);
        }
        if !check_indexes(&dimensions, &indexes) {
            return Err(ConfigError::Indexes);
        }
        if !check_weights(&dimensions, weights) {
            return Err(ConfigError::Weights);
        }
        let loss: Loss = match parse_loss(loss) {
            Some(loss) => loss,
            None => {
                return Err(ConfigError::UnknownLoss);
            },
        };
        let ghost dims = dimensions@;
        let mut w: Vec<Vec<u32>> = Vec::with_capacity(n_layers);
        let mut pool = MemArena::new();
        let mut lsh2pool: Vec<FnvHashMap<u32, usize>> = Vec::with_capacity(n_layers);
        let mut lsh2bias: Vec<FnvHashMap<u32, u32>> = Vec::with_capacity(n_layers);
        let mut lsh_store = indexes;
        let mut i: usize = 0;
        while i < n_layers - 1
            invariant
                dims == dimensions@,
                n_layers == dims.len(),
                n_layers >= 1,
                0 <= i <= n_layers - 1,
                layers_fit(dims),
                weights_fit(dims, weights@),
                lsh_store@.len() == n_layers - 1,
                indexes@.len() == n_layers - 1,
                forall|l: int|
                    0 <= l < n_layers - 1 ==> {
                        &&& (#[trigger] lsh_store@[l]).wf()
                        &&& lsh_store@[l].dim() == dims[l]
                        &&& lsh_store@[l].hashers() == indexes@[l].hashers()
                        &&& lsh_store@[l].inner_prod() == indexes@[l].inner_prod()
                        &&& lsh_store@[l].next_id() == if l < i {
                            dims[l + 1] as int
                        } else {
                            0
                        }
                    },
                forall|l: int, j: u32|
                    0 <= l < i && j < dims[l + 1] ==> #[trigger] lsh_store@[l].filed_under(
                        j,
                        weights@[l]@[j as int]@,
                    ),
                pool.wf(),
                pool.free().len() == 0,
                pool.backup().len() == 0,
                pool.weights().len() == first_slot(dims, i as int),
                forall|l: int, j: int|
                    0 <= l < i && 0 <= j < dims[l + 1] ==> #[trigger] weight_at(
                        pool.weights(),
                        dims,
                        l,
                        j,
                    ) == weights@[l]@[j]@,
                lsh2pool@.len() == i,
                lsh2bias@.len() == i,
                w@.len() == i,
                forall|l: int|
                    0 <= l < i ==> (#[trigger] w@[l])@ == Seq::new(
                        dims[l + 1] as nat,
                        |j: int| j as u32,
                    ),
                forall|l: int, j: u32|
                    0 <= l < i ==> (#[trigger] lsh2pool@[l]@.contains_key(j) <==> j < dims[l + 1]),
                forall|l: int, j: u32|
                    0 <= l < i && j < dims[l + 1] ==> #[trigger] lsh2pool@[l]@[j] == first_slot(
                        dims,
                        l,
                    ) + j,
                forall|l: int, j: u32|
                    0 <= l < i ==> (#[trigger] lsh2bias@[l]@.contains_key(j) <==> j < dims[l + 1]),
                forall|l: int, j: u32|
                    0 <= l < i && j < dims[l + 1] ==> #[trigger] lsh2bias@[l]@[j] == 0,
            decreases n_layers - 1 - i,
        {
            let ghost store_before = lsh_store@;
            let ghost pool_before = pool.weights();
            assert(weights@[i as int]@.len() == dims[i + 1]);
            assert(dims[i + 1] <= u32::MAX);
            assert(lsh_store@[i as int].wf());
            assert forall|j: int| 0 <= j < weights@[i as int]@.len() implies (#[trigger] weights@[i as int]@[j])@.len()
                == lsh_store@[i as int].dim() by {}
            let (lsh2pool_i, lsh2bias_i, w_idx) = build_layer(
                &mut lsh_store[i],
                &mut pool,
                &weights[i],
            );
            lsh2pool.push(lsh2pool_i);
            lsh2bias.push(lsh2bias_i);
            w.push(w_idx);
            proof {
                assert forall|l: int| 0 <= l < n_layers - 1 implies {
                    &&& (#[trigger] lsh_store@[l]).wf()
                    &&& lsh_store@[l].dim() == dims[l]
                    &&& lsh_store@[l].hashers() == indexes@[l].hashers()
                    &&& lsh_store@[l].inner_prod() == indexes@[l].inner_prod()
                    &&& lsh_store@[l].next_id() == if l < i + 1 {
                        dims[l + 1] as int
                    } else {
                        0
                    }
                } by {
                    if l != i {
                        assert(lsh_store@[l] == store_before[l]);
                    }
                }
                assert forall|l: int, j: u32|
                    0 <= l < i + 1 && j < dims[l + 1] implies #[trigger] lsh_store@[l].filed_under(
                    j,
                    weights@[l]@[j as int]@,
                ) by {
                    if l != i {
                        assert(lsh_store@[l] == store_before[l]);
                        assert(store_before[l].filed_under(j, weights@[l]@[j as int]@));
                    }
                }
                assert forall|l: int, j: int|
                    0 <= l < i + 1 && 0 <= j < dims[l + 1] implies #[trigger] weight_at(
                    pool.weights(),
                    dims,
                    l,
                    j,
                ) == weights@[l]@[j]@ by {
                    lemma_first_slot_nonnegative(dims, l);
                    if l < i {
                        lemma_first_slot_grows(dims, l, i as int);
                        assert(weight_at(pool_before, dims, l, j) == weights@[l]@[j]@);
                        assert(pool.weights()[first_slot(dims, l) + j] == pool_before[first_slot(
                            dims,
                            l,
                        ) + j]);
                    } else {
                        assert(pool.weights()[pool_before.len() + j] == weights@[i as int]@[j]@);
                    }
                }
            }
            i += 1;
        }
        pool.freeze();
        let net = Network {
            w,
            lsh2bias,
            activations,
            lsh_store,
            n_layers,
            pool,
            lsh2pool,
            dimensions,
            lr,
            loss,
        };
        proof {
            assert forall|l: int| 0 <= l < net.depth() implies #[trigger] net.layer_wf(l) by {
                assert(net.indexes()[l].wf());
                assert(net.pids()[l] == Seq::new(dims[l + 1] as nat, |j: int| j as u32));
                assert forall|j: u32| #[trigger]
                    net.slots()[l].contains_key(j) <==> j < net.dims()[l + 1] by {
                    assert(lsh2pool@[l]@.contains_key(j) <==> j < dims[l + 1]);
                }
                assert forall|j: u32| #[trigger]
                    net.biases()[l].contains_key(j) <==> j < net.dims()[l + 1] by {
                    assert(lsh2bias@[l]@.contains_key(j) <==> j < dims[l + 1]);
                }
                assert forall|j: u32| j < net.dims()[l + 1] implies {
                    &&& (#[trigger] net.slot(l, j)) < net.arena().weights().len()
                    &&& net.weight(l, j).len() == net.dims()[l]
                    &&& net.indexed_weight(l, j).len() == net.dims()[l]
                    &&& net.indexes()[l].filed_under(j, net.indexed_weight(l, j))
                } by {
                    assert(lsh2pool@[l]@[j] == first_slot(dims, l) + j);
                    if l + 1 < net.depth() {
                        lemma_first_slot_grows(dims, l, net.depth());
                    }
                    lemma_first_slot_nonnegative(dims, l);
                    assert(weight_at(net.arena().weights(), dims, l, j as int)
                        == weights@[l]@[j as int]@);
                    assert(lsh_store@[l].filed_under(j, weights@[l]@[j as int]@));
                }
            }
            assert forall|l: int, j: u32, l2: int, j2: u32|
                net.has(l, j) && net.has(l2, j2) && (l != l2 || j != j2) implies #[trigger] net.slot(
                l,
                j,
            ) != #[trigger] net.slot(l2, j2) by {
                assert(lsh2pool@[l]@[j] == first_slot(dims, l) + j);
                assert(lsh2pool@[l2]@[j2] == first_slot(dims, l2) + j2);
                if l < l2 {
                    lemma_first_slot_grows(dims, l, l2);
                } else if l2 < l {
                    lemma_first_slot_grows(dims, l2, l);
                }
            }
            assert forall|l: int, j: u32| net.has(l, j) implies #[trigger] net.weight(l, j)
                == weights@[l]@[j as int]@ by {
                assert(lsh2pool@[l]@[j] == first_slot(dims, l) + j);
                assert(weight_at(net.arena().weights(), dims, l, j as int)
                    == weights@[l]@[j as int]@);
            }
            assert forall|l: int, j: u32| net.has(l, j) implies #[trigger] net.bias(l, j) == 0 by {
                assert(lsh2bias@[l]@[j] == 0);
            }
            assert forall|l: int, j: u32| net.has(l, j) implies #[trigger] net.indexed_weight(l, j)
                == net.weight(l, j) by {}
        }
        Ok(net)
    }

    /// The dimensions: of the input first, then of each layer.
    pub fn dimensions(&self) -> (d: &Vec<usize>)
        ensures
            d@ == self.dims(),
    {
        &self.dimensions
    }

    /// The activations, one per layer after the input.
    pub fn activations(&self) -> (a: &Vec<Activation>)
        ensures
            a@ == self.acts(),
    {
        &self.activations
    }

    /// The learning rate.
    pub fn learning_rate(&self) -> (lr: u32)
        ensures
            lr == self.rate(),
    {
        self.lr
    }

    /// The loss.
    pub fn loss(&self) -> (loss: Loss)
        ensures
            loss == self.loss_kind(),
    {
        self.loss
    }

    /// The index of layer `layer`.
    pub fn lsh(&self, layer: usize) -> (index: &LSH<D>)
        requires
            self.wf(),
            0 <= layer < self.depth(),
        ensures
            *index == self.indexes()[layer as int],
    {
        &self.lsh_store[layer]
    }

    /// The arena of the weights.
    pub fn pool(&self) -> (arena: &MemArena)
        ensures
            *arena == self.arena(),
    {
        &self.pool
    }

    /// The perceptrons of each layer, in the order in which they were made.
    pub fn w(&self) -> (w: &Vec<Vec<u32>>)
        ensures
            w@.len() == self.pids().len(),
            forall|i: int| 0 <= i < w@.len() ==> (#[trigger] w@[i])@ == self.pids()[i],
    {
        &self.w
    }

    /// The slot of the weight of perceptron `j` of layer `layer`.
    pub fn get_pool_idx(&self, layer: usize, j: u32) -> (slot: usize)
        requires
            self.wf(),
            self.has(layer as int, j),
        ensures
            slot == self.slot(layer as int, j),
            slot < self.arena().weights().len(),
    {
        assert(self.layer_wf(layer as int));
        assert(self.slots()[layer as int].contains_key(j));
        match map_get(&self.lsh2pool[layer], j) {
            Some(slot) => *slot,
            None => 0,
        }
    }

    /// The weight of perceptron `j` of layer `layer`.
    pub fn get_weight(&self, layer: usize, j: usize) -> (w: &Vec<u32>)
        requires
            self.wf(),
            0 <= layer < self.depth(),
            j < self.dims()[layer + 1],
        ensures
            w@ == self.weight(layer as int, j as u32),
            w@.len() == self.dims()[layer as int],
    {
        assert(self.layer_wf(layer as int));
        let slot = self.get_pool_idx(layer, j as u32);
        self.pool.get(slot)
    }

    /// The weight of perceptron `j` of layer `layer` as the index last saw
    /// it.
    pub fn get_weight_original(&self, layer: usize, j: usize) -> (w: &Vec<u32>)
        requires
            self.wf(),
            0 <= layer < self.depth(),
            j < self.dims()[layer + 1],
        ensures
            w@ == self.indexed_weight(layer as int, j as u32),
            w@.len() == self.dims()[layer as int],
    {
        assert(self.layer_wf(layer as int));
        let slot = self.get_pool_idx(layer, j as u32);
        self.pool.get_backup(slot)
    }

    /// The bias of perceptron `j` of layer `layer`.
    pub fn get_bias(&self, layer: usize, j: usize) -> (b: u32)
        requires
            self.wf(),
            0 <= layer < self.depth(),
            j < self.dims()[layer + 1],
        ensures
            b == self.bias(layer as int, j as u32),
    {
        assert(self.layer_wf(layer as int));
        assert(self.biases()[layer as int].contains_key(j as u32));
        match map_get(&self.lsh2bias[layer], j as u32) {
            Some(b) => *b,
            None => 0,
        }
    }

    /// Whether `other` differs from this network in the arena alone.
    pub open spec fn same_but_arena(&self, other: &Self) -> bool {
        &&& other.counted() == self.counted()
        &&& other.dims() == self.dims()
        &&& other.acts() == self.acts()
        &&& other.indexes() == self.indexes()
        &&& other.slots() == self.slots()
        &&& other.biases() == self.biases()
        &&& other.pids() == self.pids()
        &&& other.rate() == self.rate()
        &&& other.loss_kind() == self.loss_kind()
    }

    /// Gives perceptron `j` of layer `layer` the weight `w`. The index is
    /// not told: it files the perceptron as before, until the next rehash.
    pub fn set_weight(&mut self, layer: usize, j: u32, w: Vec<u32>)
        requires
            old(self).wf(),
            old(self).has(layer as int, j),
            w@.len() == old(self).dims()[layer as int],
        ensures
            final(self).wf(),
            old(self).same_but_arena(final(self)),
            final(self).arena().weights() == old(self).arena().weights().update(
                old(self).slot(layer as int, j) as int,
                w@,
            ),
            final(self).arena().backup() == old(self).arena().backup(),
            final(self).arena().free() == old(self).arena().free(),
            final(self).weight(layer as int, j) == w@,
            forall|i: int, j2: u32|
                old(self).has(i, j2) && (i != layer || j2 != j) ==> #[trigger] final(self).weight(
                    i,
                    j2,
                ) == old(self).weight(i, j2),
    {
        let slot = self.get_pool_idx(layer, j);
        self.pool.set(slot, w);
        proof {
            assert(self.arena().wf());
            assert(self.arena().frozen());
            assert forall|i: int, j: u32, i2: int, j2: u32|
                self.has(i, j) && self.has(i2, j2) && (i != i2 || j != j2) implies #[trigger] self.slot(
                i,
                j,
            ) != #[trigger] self.slot(i2, j2) by {
                assert(old(self).has(i, j) && old(self).has(i2, j2));
                assert(old(self).slot(i, j) != old(self).slot(i2, j2));
            }
            assert forall|i: int| 0 <= i < self.depth() implies #[trigger] self.layer_wf(i) by {
                assert(old(self).layer_wf(i));
                assert forall|j2: u32| j2 < self.dims()[i + 1] implies {
                    &&& (#[trigger] self.slot(i, j2)) < self.arena().weights().len()
                    &&& self.weight(i, j2).len() == self.dims()[i]
                    &&& self.indexed_weight(i, j2).len() == self.dims()[i]
                    &&& self.indexes()[i].filed_under(j2, self.indexed_weight(i, j2))
                } by {
                    assert(old(self).has(i, j2));
                    assert(old(self).slot(i, j2) < old(self).arena().weights().len());
                    if i != layer || j2 != j {
                        assert(old(self).slot(i, j2) != old(self).slot(layer as int, j));
                    }
                }
            }
            assert forall|i: int, j2: u32|
                old(self).has(i, j2) && (i != layer || j2 != j) implies #[trigger] self.weight(
                i,
                j2,
            ) == old(self).weight(i, j2) by {
                assert(old(self).layer_wf(i));
                assert(old(self).slot(i, j2) != old(self).slot(layer as int, j));
            }
        }
    }

    /// Gives perceptron `j` of layer `layer` the bias `b`.
    pub fn set_bias(&mut self, layer: usize, j: u32, b: u32)
        requires
            old(self).wf(),
            old(self).has(layer as int, j),
        ensures
            final(self).wf(),
            final(self).dims() == old(self).dims(),
            final(self).acts() == old(self).acts(),
            final(self).indexes() == old(self).indexes(),
            final(self).slots() == old(self).slots(),
            final(self).pids() == old(self).pids(),
            final(self).rate() == old(self).rate(),
            final(self).loss_kind() == old(self).loss_kind(),
            final(self).arena() == old(self).arena(),
            final(self).biases() == old(self).biases().update(
                layer as int,
                old(self).biases()[layer as int].insert(j, b),
            ),
    {
        map_insert(&mut self.lsh2bias[layer], j, b);
        proof {
            assert(self.slots() =~= old(self).slots());
            assert(self.pids() =~= old(self).pids());
            assert(old(self).layer_wf(layer as int));
            assert(self.biases() =~= old(self).biases().update(
                layer as int,
                old(self).biases()[layer as int].insert(j, b),
            ));
            assert forall|i: int| 0 <= i < self.depth() implies #[trigger] self.layer_wf(i) by {
                assert(old(self).layer_wf(i));
                assert forall|j2: u32| #[trigger]
                    self.biases()[i].contains_key(j2) <==> j2 < self.dims()[i + 1] by {
                    assert(old(self).biases()[i].contains_key(j2) <==> j2 < self.dims()[i + 1]);
                }
                assert forall|j2: u32| #[trigger]
                    self.slots()[i].contains_key(j2) <==> j2 < self.dims()[i + 1] by {
                    assert(old(self).slots()[i].contains_key(j2) <==> j2 < self.dims()[i + 1]);
                }
                assert forall|j2: u32| j2 < self.dims()[i + 1] implies {
                    &&& (#[trigger] self.slot(i, j2)) < self.arena().weights().len()
                    &&& self.weight(i, j2).len() == self.dims()[i]
                    &&& self.indexed_weight(i, j2).len() == self.dims()[i]
                    &&& self.indexes()[i].filed_under(j2, self.indexed_weight(i, j2))
                } by {
                    assert(old(self).slot(i, j2) < old(self).arena().weights().len());
                }
            }
            assert forall|i: int, j: u32, i2: int, j2: u32|
                self.has(i, j) && self.has(i2, j2) && (i != i2 || j != j2) implies #[trigger] self.slot(
                i,
                j,
            ) != #[trigger] self.slot(i2, j2) by {
                assert(old(self).has(i, j) && old(self).has(i2, j2));
                assert(old(self).slot(i, j) != old(self).slot(i2, j2));
            }
        }
    }

    /// Whether `other` differs from this network in the indexes and in the
    /// backup of the arena alone, and has the hash functions of this one.
    pub open spec fn same_but_indexed(&self, other: &Self) -> bool {
        &&& other.counted() == self.counted()
        &&& other.dims() == self.dims()
        &&& other.acts() == self.acts()
        &&& other.slots() == self.slots()
        &&& other.biases() == self.biases()
        &&& other.pids() == self.pids()
        &&& other.rate() == self.rate()
        &&& other.loss_kind() == self.loss_kind()
        &&& other.arena().weights() == self.arena().weights()
        &&& other.arena().free() == self.arena().free()
        &&& other.indexes().len() == self.indexes().len()
        &&& forall|i: int|
            0 <= i < self.indexes().len() ==> (#[trigger] other.indexes()[i]).hashers()
                == self.indexes()[i].hashers() && other.indexes()[i].inner_prod()
                == self.indexes()[i].inner_prod()
    }

    /// Brings the index up to date with perceptron `j` of layer `layer`:
    /// where its weight is not the one that the index saw, the index files
    /// it under the weight as it is now, and the backup takes that weight.
    pub fn rehash_one(&mut self, layer: usize, j: u32)
        requires
            old(self).wf(),
            old(self).has(layer as int, j),
        ensures
            final(self).wf(),
            old(self).same_but_indexed(final(self)),
            final(self).arena().backup() == old(self).arena().backup().update(
                old(self).slot(layer as int, j) as int,
                old(self).weight(layer as int, j),
            ),
            forall|i: int|
                0 <= i < old(self).depth() && i != layer ==> #[trigger] final(self).indexes()[i]
                    == old(self).indexes()[i],
            forall|t: int|
                0 <= t < old(self).indexes()[layer as int].n_tables() ==> #[trigger] final(self).indexes()[layer as int].tables()[t] == moved(
                    old(self).indexes()[layer as int].tables()[t],
                    old(self).indexes()[layer as int].hash_at(
                        t,
                        old(self).indexed_weight(layer as int, j),
                    ),
                    old(self).indexes()[layer as int].hash_at(t, old(self).weight(layer as int, j)),
                    j,
                ),
            old(self).weight(layer as int, j) == old(self).indexed_weight(layer as int, j) ==> final(self).indexes() == old(self).indexes() && final(self).arena() == old(self).arena(),
    {
        assert(self.layer_wf(layer as int));
        let slot = self.get_pool_idx(layer, j);
        let changed: bool = !same_bits(self.pool.get(slot), self.pool.get_backup(slot));
        if changed {
            let ghost before = self.lsh_store@[layer as int];
            let ghost now = self.weight(layer as int, j);
            let ghost seen = self.indexed_weight(layer as int, j);
            let _ = self.lsh_store[layer].update_by_idx(
                j,
                self.pool.get(slot),
                self.pool.get_backup(slot),
            );
            let ghost after = self.lsh_store@[layer as int];
            self.pool.snapshot(slot);
            proof {
                assert(self.slots() =~= old(self).slots());
                assert(self.biases() =~= old(self).biases());
                assert(self.pids() =~= old(self).pids());
                LSH::lemma_updated_is_filed_once(&before, &after, j, now, seen);
                assert forall|i: int| 0 <= i < self.depth() implies #[trigger] self.layer_wf(i) by {
                    assert(old(self).layer_wf(i));
                    assert forall|j2: u32| #[trigger]
                        self.biases()[i].contains_key(j2) <==> j2 < self.dims()[i + 1] by {
                        assert(old(self).biases()[i].contains_key(j2) <==> j2 < self.dims()[i
                            + 1]);
                    }
                    assert forall|j2: u32| #[trigger]
                        self.slots()[i].contains_key(j2) <==> j2 < self.dims()[i + 1] by {
                        assert(old(self).slots()[i].contains_key(j2) <==> j2 < self.dims()[i
                            + 1]);
                    }
                    assert forall|j2: u32| j2 < self.dims()[i + 1] implies {
                        &&& (#[trigger] self.slot(i, j2)) < self.arena().weights().len()
                        &&& self.weight(i, j2).len() == self.dims()[i]
                        &&& self.indexed_weight(i, j2).len() == self.dims()[i]
                        &&& self.indexes()[i].filed_under(j2, self.indexed_weight(i, j2))
                    } by {
                        assert(old(self).has(i, j2));
                        assert(old(self).slot(i, j2) < old(self).arena().weights().len());
                        if i != layer || j2 != j {
                            assert(old(self).slot(i, j2) != old(self).slot(layer as int, j));
                            assert(self.indexed_weight(i, j2) == old(self).indexed_weight(i, j2));
                            if i == layer {
                                LSH::lemma_update_keeps_others(
                                    &before,
                                    &after,
                                    j,
                                    now,
                                    seen,
                                    j2,
                                    old(self).indexed_weight(i, j2),
                                );
                            }
                        }
                    }
                }
                assert forall|i: int, j: u32, i2: int, j2: u32|
                    self.has(i, j) && self.has(i2, j2) && (i != i2 || j != j2) implies #[trigger] self.slot(
                    i,
                    j,
                ) != #[trigger] self.slot(i2, j2) by {
                    assert(old(self).has(i, j) && old(self).has(i2, j2));
                    assert(old(self).slot(i, j) != old(self).slot(i2, j2));
                }
            }
        } else {
            proof {
                assert(self.arena().backup() =~= old(self).arena().backup().update(
                    old(self).slot(layer as int, j) as int,
                    old(self).weight(layer as int, j),
                ));
            }
        }
    }

    /// Whether the index has seen every weight as it is now.
    pub open spec fn up_to_date(&self) -> bool {
        forall|i: int, j: u32|
            self.has(i, j) ==> #[trigger] self.indexed_weight(i, j) == self.weight(i, j)
    }

    /// Whether `after` is what a rehash makes of this network: nothing but
    /// the indexes and the backup differs; the backup holds every weight as
    /// it is; and where the index was up to date already, nothing differs.
    pub open spec fn rehashed(&self, after: &Self) -> bool {
        &&& after.wf()
        &&& self.same_but_indexed(after)
        &&& after.up_to_date()
        &&& forall|i: int, j: u32|
            self.has(i, j) ==> #[trigger] after.indexed_weight(i, j) == self.weight(i, j)
        &&& self.up_to_date() ==> after.indexes() == self.indexes() && after.arena()
            == self.arena()
    }

    /// Whether perceptron `j` of layer `i` comes before perceptron `to_j` of
    /// layer `to_i` in the order of a rehash.
    pub open spec fn before(&self, i: int, j: u32, to_i: int, to_j: int) -> bool {
        i < to_i || (i == to_i && j < to_j)
    }

    /// Brings the index up to date with every weight: each perceptron whose
    /// weight is not the one that the index saw is filed under its weight as
    /// it is now, and the backup takes that weight. A weight counts as
    /// changed where any of its bits has.
    pub fn rehash(&mut self)
        requires
            old(self).wf(),
        ensures
            old(self).rehashed(final(self)),
    {
        let mut layer: usize = 0;
        while layer + 1 < self.n_layers
            invariant
                self.wf(),
                old(self).wf(),
                old(self).same_but_indexed(self),
                0 <= layer <= self.depth(),
                forall|i: int, j: u32|
                    self.has(i, j) ==> #[trigger] self.indexed_weight(i, j) == if i < layer {
                        old(self).weight(i, j)
                    } else {
                        old(self).indexed_weight(i, j)
                    },
                old(self).up_to_date() ==> self.indexes() == old(self).indexes() && self.arena()
                    == old(self).arena(),
            decreases self.depth() - layer,
        {
            let shape: usize = self.dimensions[layer + 1];
            assert(self.layer_wf(layer as int));
            let mut j: usize = 0;
            while j < shape
                invariant
                    self.wf(),
                    old(self).wf(),
                    old(self).same_but_indexed(self),
                    0 <= layer < self.depth(),
                    shape == self.dims()[layer + 1],
                    shape <= u32::MAX,
                    0 <= j <= shape,
                    forall|i: int, j2: u32|
                        self.has(i, j2) ==> #[trigger] self.indexed_weight(i, j2) == if self.before(
                            i,
                            j2,
                            layer as int,
                            j as int,
                        ) {
                            old(self).weight(i, j2)
                        } else {
                            old(self).indexed_weight(i, j2)
                        },
                    old(self).up_to_date() ==> self.indexes() == old(self).indexes()
                        && self.arena() == old(self).arena(),
                decreases shape - j,
            {
                let ghost mid = *self;
                assert(old(self).has(layer as int, j as u32));
                assert(self.indexed_weight(layer as int, j as u32) == old(self).indexed_weight(
                    layer as int,
                    j as u32,
                ));
                self.rehash_one(layer, j as u32);
                proof {
                    assert forall|i: int, j2: u32| self.has(i, j2) implies #[trigger] self.indexed_weight(
                        i,
                        j2,
                    ) == if self.before(i, j2, layer as int, j + 1) {
                        old(self).weight(i, j2)
                    } else {
                        old(self).indexed_weight(i, j2)
                    } by {
                        assert(mid.has(i, j2));
                        assert(mid.layer_wf(i));
                        assert(mid.slot(i, j2) < mid.arena().weights().len());
                        if i != layer || j2 != j {
                            assert(mid.has(layer as int, j as u32));
                            assert(mid.layer_wf(layer as int));
                            assert(mid.slot(layer as int, j as u32) < mid.arena().weights().len());
                            assert(mid.slot(i, j2) != mid.slot(layer as int, j as u32));
                            assert(mid.arena().frozen());
                            assert(self.slot(i, j2) == mid.slot(i, j2));
                            assert(self.arena().backup() == mid.arena().backup().update(
                                mid.slot(layer as int, j as u32) as int,
                                mid.weight(layer as int, j as u32),
                            ));
                            assert(self.indexed_weight(i, j2) == mid.indexed_weight(i, j2));
                        }
                    }
                    assert forall|i: int|
                        0 <= i < old(self).indexes().len() implies (#[trigger] self.indexes()[i]).hashers()
                        == old(self).indexes()[i].hashers() && self.indexes()[i].inner_prod()
                        == old(self).indexes()[i].inner_prod() by {
                        assert(mid.indexes()[i].hashers() == old(self).indexes()[i].hashers());
                    }
                    if old(self).up_to_date() {
                        assert(old(self).indexed_weight(layer as int, j as u32) == old(
                            self,
                        ).weight(layer as int, j as u32));
                    }
                }
                j += 1;
            }
            layer += 1;
        }
        proof {
            assert forall|i: int, j: u32| self.has(i, j) implies #[trigger] self.indexed_weight(
                i,
                j,
            ) == self.weight(i, j) by {
                assert(self.indexed_weight(i, j) == old(self).weight(i, j));
            }
        }
    }

    /// A second rehash changes nothing: where nothing happened between two
    /// rehashes, the second leaves the indexes and the arena as the first
    /// left them.
    pub proof fn lemma_rehash_is_idempotent(&self, once: &Self, twice: &Self)
        requires
            self.rehashed(once),
            once.rehashed(twice),
        ensures
            twice.indexes() == once.indexes(),
            twice.arena() == once.arena(),
    {
    }

    /// After a rehash the index files every perceptron under its weight as
    /// it is, and under nothing else.
    pub proof fn lemma_rehash_files_by_weight(
        &self,
        after: &Self,
        i: int,
        t: int,
        h: Seq<i32>,
        id: u32,
    )
        requires
            self.rehashed(after),
            0 <= i < self.depth(),
            0 <= t < self.indexes()[i].n_tables(),
        ensures
            in_bucket(after.indexes()[i].tables()[t], h, id) <==> self.has(i, id) && h
                == self.indexes()[i].hash_at(t, self.weight(i, id)),
    {
        after.lemma_index_content(i, t, h, id);
        assert(after.indexes()[i].hashers() == self.indexes()[i].hashers());
        if self.has(i, id) {
            assert(after.indexed_weight(i, id) == self.weight(i, id));
        }
    }

    /// Every slot keeps its backup: in a network that is in order the arena
    /// has as many backups as weights.
    pub proof fn lemma_backup_is_complete(&self)
        requires
            self.wf(),
        ensures
            self.arena().backup().len() == self.arena().weights().len(),
    {
    }

    /// What the index of a layer holds: it files perceptron `id` under `h`
    /// in table `t` exactly where the layer has that perceptron and `h` is
    /// the hash of the weight that the index last saw.
    pub proof fn lemma_index_content(&self, i: int, t: int, h: Seq<i32>, id: u32)
        requires
            self.wf(),
            0 <= i < self.depth(),
            0 <= t < self.indexes()[i].n_tables(),
        ensures
            in_bucket(self.indexes()[i].tables()[t], h, id) <==> self.has(i, id) && h
                == self.indexes()[i].hash_at(t, self.indexed_weight(i, id)),
    {
        assert(self.layer_wf(i));
        let index = self.indexes()[i];
        assert(filed_as(index.tables()[t], id, index.next_id()));
        if self.has(i, id) {
            assert(self.slot(i, id) < self.arena().weights().len());
            assert(index.filed_under(id, self.indexed_weight(i, id)));
            assert(in_bucket(
                index.tables()[t],
                index.hash_at(t, self.indexed_weight(i, id)),
                id,
            ));
        }
    }

    /// Whether `c` is what perceptron `c.j` of layer `i` gives for `input`:
    /// it names the layer and the slot of the weight, holds what `unit`
    /// returned for the input, the weight, the bias and the activation of
    /// the layer, and no share of the error yet.
    pub open spec fn is_neuron_of<F: Fn(&Vec<u32>, &Vec<u32>, u32, Activation) -> (u32, u32)>(
        &self,
        i: int,
        input: Seq<u32>,
        unit: F,
        c: Neuron,
    ) -> bool {
        &&& c.i == i
        &&& c.j < self.dims()[i + 1]
        &&& c.k == self.slot(i, c.j as u32)
        &&& c.delta == 0
        &&& unit_gives(
            unit,
            input,
            self.weight(i, c.j as u32),
            self.bias(i, c.j as u32),
            self.acts()[i],
            c.z,
            c.a,
        )
    }

    /// Whether `neurons` is what layer `i` gives for `input`. No perceptron
    /// is listed twice. The last layer lists all its perceptrons in order;
    /// another layer lists those that its index finds for the input.
    pub open spec fn is_layer_output<F: Fn(&Vec<u32>, &Vec<u32>, u32, Activation) -> (u32, u32)>(
        &self,
        i: int,
        input: Seq<u32>,
        last_layer: bool,
        unit: F,
        neurons: Seq<Neuron>,
    ) -> bool {
        &&& forall|n: int|
            0 <= n < neurons.len() ==> self.is_neuron_of(i, input, unit, #[trigger] neurons[n])
        &&& ids_of(neurons).no_duplicates()
        &&& if last_layer {
            ids_of(neurons) == Seq::new(self.dims()[i + 1] as nat, |j: int| j as usize)
        } else {
            forall|j: u32|
                self.indexes()[i].candidates(input).contains(j) <==> #[trigger] ids_of(
                    neurons,
                ).contains(j as usize)
        }
    }

    /// Computes layer `i` on `input`: every perceptron where it is the last
    /// layer, else the perceptrons that the index of the layer finds for
    /// the input.
    pub fn apply_layer<F: Fn(&Vec<u32>, &Vec<u32>, u32, Activation) -> (u32, u32)>(
        &self,
        i: usize,
        input: &Vec<u32>,
        last_layer: bool,
        unit: &F,
    ) -> (neurons: Vec<Neuron>)
        requires
            self.wf(),
            0 <= i < self.depth(),
            input@.len() == self.dims()[i as int],
            is_unit(*unit),
        ensures
            self.is_layer_output(i as int, input@, last_layer, *unit, neurons@),
    {
        assert(self.layer_wf(i as int));
        let shape: usize = self.dimensions[i + 1];
        let idx_j: Vec<u32> = if last_layer {
            let mut all: Vec<u32> = Vec::with_capacity(shape);
            let mut j: usize = 0;
            while j < shape
                invariant
                    shape <= u32::MAX,
                    j <= shape,
                    all@.len() == j,
                    forall|m: int| 0 <= m < j ==> all@[m] == m,
                decreases shape - j,
            {
                all.push(j as u32);
                j += 1;
            }
            all
        } else {
            match self.lsh_store[i].query_bucket_ids(input) {
                Ok(ids) => ids,
                Err(_) => Vec::new(),
            }
        };
        proof {
            assert forall|m: int| 0 <= m < idx_j@.len() implies (#[trigger] idx_j@[m])
                < self.dims()[i + 1] by {
                if !last_layer {
                    let id = idx_j@[m];
                    assert(idx_j@.to_set().contains(id));
                    assert(self.indexes()[i as int].candidates(input@).contains(id));
                    let t = choose|t: int|
                        0 <= t < self.indexes()[i as int].n_tables() && #[trigger] in_bucket(
                            self.indexes()[i as int].tables()[t],
                            self.indexes()[i as int].hash_at(t, input@),
                            id,
                        );
                    self.lemma_index_content(
                        i as int,
                        t,
                        self.indexes()[i as int].hash_at(t, input@),
                        id,
                    );
                }
            }
            assert(idx_j@.no_duplicates());
        }
        let act: Activation = self.activations[i];
        let mut neurons: Vec<Neuron> = Vec::with_capacity(idx_j.len());
        let mut m: usize = 0;
        while m < idx_j.len()
            invariant
                self.wf(),
                0 <= i < self.depth(),
                input@.len() == self.dims()[i as int],
                is_unit(*unit),
                act == self.acts()[i as int],
                m <= idx_j@.len(),
                neurons@.len() == m,
                forall|n: int| 0 <= n < idx_j@.len() ==> (#[trigger] idx_j@[n]) < self.dims()[i + 1],
                forall|n: int| 0 <= n < m ==> (#[trigger] neurons@[n]).j == idx_j@[n],
                forall|n: int|
                    0 <= n < m ==> self.is_neuron_of(i as int, input@, *unit, #[trigger] neurons@[n]),
            decreases idx_j@.len() - m,
        {
            let j: u32 = idx_j[m];
            assert(self.layer_wf(i as int));
            assert(self.has(i as int, j));
            let k: usize = self.get_pool_idx(i, j);
            let b: u32 = self.get_bias(i, j as usize);
            let w = self.pool.get(k);
            assert(self.slot(i as int, j) < self.arena().weights().len());
            let (z, a) = unit(input, w, b, act);
            neurons.push(Neuron { i, j: j as usize, k, z, a, delta: 0 });
            m += 1;
        }
        proof {
            assert forall|n1: int, n2: int|
                0 <= n1 < neurons@.len() && 0 <= n2 < neurons@.len() && n1 != n2 implies ids_of(
                neurons@,
            )[n1] != ids_of(neurons@)[n2] by {
                assert(neurons@[n1].j == idx_j@[n1]);
                assert(neurons@[n2].j == idx_j@[n2]);
            }
            if last_layer {
                assert(ids_of(neurons@) =~= Seq::new(
                    self.dims()[i + 1] as nat,
                    |j: int| j as usize,
                )) by {
                    assert forall|n: int| 0 <= n < neurons@.len() implies ids_of(neurons@)[n]
                        == n as usize by {
                        assert(neurons@[n].j == idx_j@[n]);
                    }
                }
            } else {
                assert forall|j: u32|
                    self.indexes()[i as int].candidates(input@).contains(j) <==> #[trigger] ids_of(
                        neurons@,
                    ).contains(j as usize) by {
                    if self.indexes()[i as int].candidates(input@).contains(j) {
                        assert(idx_j@.to_set().contains(j));
                        let n = choose|n: int| 0 <= n < idx_j@.len() && idx_j@[n] == j;
                        assert(neurons@[n].j == idx_j@[n]);
                        assert(ids_of(neurons@)[n] == j as usize);
                    }
                    if ids_of(neurons@).contains(j as usize) {
                        let n = choose|n: int|
                            0 <= n < ids_of(neurons@).len() && ids_of(neurons@)[n] == j as usize;
                        assert(neurons@[n].j == idx_j@[n]);
                        assert(idx_j@[n] == j);
                        assert(idx_j@.to_set().contains(j));
                    }
                }
            }
        }
        neurons
    }

    /// Whether `neurons` and `inputs` are what a pass on `x` gives: one
    /// list of perceptrons and one input per layer, the first input `x`,
    /// each later input made of the activations of the layer before, and
    /// each list what its layer gives for its input.
    pub open spec fn is_pass<F: Fn(&Vec<u32>, &Vec<u32>, u32, Activation) -> (u32, u32)>(
        &self,
        x: Seq<u32>,
        unit: F,
        neurons: Seq<Vec<Neuron>>,
        inputs: Seq<Vec<u32>>,
    ) -> bool {
        &&& neurons.len() == self.depth()
        &&& inputs.len() == self.depth()
        &&& inputs[0]@ == x
        &&& forall|i: int|
            1 <= i < self.depth() ==> (#[trigger] inputs[i])@ == sparse_input(
                neurons[i - 1]@,
                self.dims()[i] as nat,
            )
        &&& forall|i: int|
            0 <= i < self.depth() ==> self.is_layer_output(
                i,
                inputs[i]@,
                i == self.depth() - 1,
                unit,
                (#[trigger] neurons[i])@,
            )
    }

    /// A pass on `x`, layer by layer: the perceptrons that took part in
    /// each layer, and the input of each layer.
    pub fn forward<F: Fn(&Vec<u32>, &Vec<u32>, u32, Activation) -> (u32, u32)>(
        &self,
        x: &Vec<u32>,
        unit: &F,
    ) -> (r: (Vec<Vec<Neuron>>, Vec<Vec<u32>>))
        requires
            self.wf(),
            self.depth() >= 1,
            x@.len() == self.dims()[0],
            is_unit(*unit),
        ensures
            self.is_pass(x@, *unit, r.0@, r.1@),
    {
        let mut neur: Vec<Vec<Neuron>> = Vec::with_capacity(self.n_layers);
        let mut inputs: Vec<Vec<u32>> = Vec::with_capacity(self.n_layers);
        inputs.push(x.clone());
        let first = self.apply_layer(0, x, self.n_layers == 2, unit);
        neur.push(first);
        let mut i: usize = 1;
        while i + 1 < self.n_layers
            invariant
                self.wf(),
                self.depth() >= 1,
                is_unit(*unit),
                1 <= i <= self.depth(),
                neur@.len() == i,
                inputs@.len() == i,
                inputs@[0]@ == x@,
                forall|l: int|
                    1 <= l < i ==> (#[trigger] inputs@[l])@ == sparse_input(
                        neur@[l - 1]@,
                        self.dims()[l] as nat,
                    ),
                forall|l: int|
                    0 <= l < i ==> self.is_layer_output(
                        l,
                        inputs@[l]@,
                        l == self.depth() - 1,
                        *unit,
                        (#[trigger] neur@[l])@,
                    ),
            decreases self.depth() - i,
        {
            let input = make_input_next_layer(&neur[i - 1], self.dimensions[i]);
            proof {
                lemma_sparse_input_len(neur@[i - 1]@, self.dims()[i as int] as nat);
            }
            let last_layer: bool = i == self.n_layers - 2;
            let layer = self.apply_layer(i, &input, last_layer, unit);
            neur.push(layer);
            inputs.push(input);
            i += 1;
        }
        (neur, inputs)
    }

    /// The last layer always computes all its perceptrons, whatever its
    /// index holds: its list names each once, in order.
    pub proof fn lemma_last_layer_is_dense<F: Fn(&Vec<u32>, &Vec<u32>, u32, Activation) -> (u32, u32)>(
        &self,
        x: Seq<u32>,
        unit: F,
        neurons: Seq<Vec<Neuron>>,
        inputs: Seq<Vec<u32>>,
    )
        requires
            self.depth() >= 1,
            self.is_pass(x, unit, neurons, inputs),
        ensures
            neurons.last()@.len() == self.dims().last(),
            forall|j: int| 0 <= j < self.dims().last() ==> (#[trigger] neurons.last()@[j]).j == j,
    {
        let last = self.depth() - 1;
        let list = neurons[last]@;
        assert(self.is_layer_output(last, inputs[last]@, true, unit, list));
        assert(ids_of(list).len() == self.dims()[last + 1]);
        assert forall|j: int| 0 <= j < self.dims().last() implies (#[trigger] list[j]).j == j by {
            assert(ids_of(list)[j] == j as usize);
        }
    }

    /// Where the index of a layer that is not the last finds nothing for
    /// the input, no perceptron of the layer takes part, and the next layer
    /// gets zeros.
    pub proof fn lemma_no_candidates_no_neurons<F: Fn(&Vec<u32>, &Vec<u32>, u32, Activation) -> (u32, u32)>(
        &self,
        i: int,
        input: Seq<u32>,
        unit: F,
        neurons: Seq<Neuron>,
    )
        requires
            self.wf(),
            0 <= i < self.depth(),
            self.is_layer_output(i, input, false, unit, neurons),
            self.indexes()[i].candidates(input) == Set::<u32>::empty(),
        ensures
            neurons.len() == 0,
            sparse_input(neurons, self.dims()[i + 1] as nat) == Seq::new(
                self.dims()[i + 1] as nat,
                |j: int| 0u32,
            ),
    {
        if neurons.len() > 0 {
            let c = neurons[0];
            assert(self.layer_wf(i));
            assert(self.is_neuron_of(i, input, unit, c));
            assert(ids_of(neurons)[0] == c.j);
            assert(ids_of(neurons).contains((c.j as u32) as usize));
            assert(self.indexes()[i].candidates(input).contains(c.j as u32));
        }
    }

    /// A layer computes the same for the same input: where what `unit`
    /// returns depends on its arguments alone, two outputs of a layer for
    /// one input agree on every perceptron that both list.
    pub proof fn lemma_layer_is_deterministic<F: Fn(&Vec<u32>, &Vec<u32>, u32, Activation) -> (u32, u32)>(
        &self,
        i: int,
        input: Seq<u32>,
        last_layer: bool,
        unit: F,
        first: Seq<Neuron>,
        second: Seq<Neuron>,
        n: int,
        m: int,
    )
        requires
            is_deterministic(unit),
            self.is_layer_output(i, input, last_layer, unit, first),
            self.is_layer_output(i, input, last_layer, unit, second),
            0 <= n < first.len(),
            0 <= m < second.len(),
            first[n].j == second[m].j,
        ensures
            first[n].z == second[m].z,
            first[n].a == second[m].a,
            first[n].k == second[m].k,
    {
        assert(self.is_neuron_of(i, input, unit, first[n]));
        assert(self.is_neuron_of(i, input, unit, second[m]));
    }

    /// Two outputs of a layer for one input list the same perceptrons.
    pub proof fn lemma_layer_lists_the_same<F: Fn(&Vec<u32>, &Vec<u32>, u32, Activation) -> (u32, u32)>(
        &self,
        i: int,
        input: Seq<u32>,
        last_layer: bool,
        unit: F,
        first: Seq<Neuron>,
        second: Seq<Neuron>,
        n: int,
    )
        requires
            self.wf(),
            0 <= i < self.depth(),
            self.is_layer_output(i, input, last_layer, unit, first),
            self.is_layer_output(i, input, last_layer, unit, second),
            0 <= n < first.len(),
        ensures
            exists|m: int| 0 <= m < second.len() && (#[trigger] second[m]).j == first[n].j,
    {
        assert(self.layer_wf(i));
        assert(self.is_neuron_of(i, input, unit, first[n]));
        assert(ids_of(first)[n] == first[n].j);
        if last_layer {
            assert(ids_of(second)[first[n].j as int] == first[n].j);
            assert(second[first[n].j as int].j == first[n].j);
        } else {
            let j = first[n].j as u32;
            assert(ids_of(first).contains(j as usize));
            assert(self.indexes()[i].candidates(input).contains(j));
            assert(ids_of(second).contains(j as usize));
            let m = choose|m: int| 0 <= m < ids_of(second).len() && ids_of(second)[m] == j as usize;
            assert(ids_of(second)[m] == second[m].j);
            assert(second[m].j == first[n].j);
        }
    }

    /// Whether `other` differs from this network in the weights and the
    /// biases alone.
    pub open spec fn same_but_params(&self, other: &Self) -> bool {
        &&& other.counted() == self.counted()
        &&& other.dims() == self.dims()
        &&& other.acts() == self.acts()
        &&& other.indexes() == self.indexes()
        &&& other.slots() == self.slots()
        &&& other.pids() == self.pids()
        &&& other.rate() == self.rate()
        &&& other.loss_kind() == self.loss_kind()
        &&& other.arena().backup() == self.arena().backup()
        &&& other.arena().free() == self.arena().free()
        &&& other.arena().weights().len() == self.arena().weights().len()
        &&& other.biases().len() == self.biases().len()
    }

    /// Whether every listed perceptron is one of this network, in a layer
    /// whose input has the length of `input`.
    pub open spec fn takes(&self, input: Seq<u32>, neurons: Seq<Neuron>) -> bool {
        forall|n: int|
            0 <= n < neurons.len() ==> 0 <= (#[trigger] neurons[n]).i < self.depth()
                && neurons[n].j < self.dims()[neurons[n].i + 1] && self.dims()[neurons[n].i as int]
                == input.len()
    }

    /// Changes the weight and the bias of every listed perceptron by what
    /// `step_w` and `step_b` return for its weight or bias, the input, its
    /// share of the error and the learning rate. The others keep theirs. The
    /// index is not told: it files each perceptron as before, until the next
    /// rehash.
    pub fn update_param<
        G: Fn(&Vec<u32>, &Vec<u32>, u32, u32) -> Vec<u32>,
        H: Fn(u32, u32, u32) -> u32,
    >(&mut self, input: &Vec<u32>, neur: &Vec<Neuron>, step_w: &G, step_b: &H)
        requires
            old(self).wf(),
            old(self).takes(input@, neur@),
            is_weight_step(*step_w),
            is_bias_step(*step_b),
        ensures
            final(self).wf(),
            old(self).same_but_params(final(self)),
            forall|i: int, j: u32|
                old(self).has(i, j) && !lists(neur@, i, j) ==> #[trigger] final(self).weight(i, j)
                    == old(self).weight(i, j) && final(self).bias(i, j) == old(self).bias(i, j),
            all_at_rest(neur@) && weight_step_rests(*step_w) && bias_step_rests(*step_b)
                ==> forall|i: int, j: u32|
                old(self).has(i, j) ==> #[trigger] final(self).weight(i, j) == old(self).weight(i, j)
                    && final(self).bias(i, j) == old(self).bias(i, j),
            listed_once(neur@) ==> forall|n: int|
                0 <= n < neur@.len() ==> weight_step_gives(
                    *step_w,
                    old(self).weight((#[trigger] neur@[n]).i as int, neur@[n].j as u32),
                    input@,
                    neur@[n].delta,
                    old(self).rate(),
                    final(self).weight(neur@[n].i as int, neur@[n].j as u32),
                ) && call_ensures(
                    *step_b,
                    (
                        old(self).bias(neur@[n].i as int, neur@[n].j as u32),
                        neur@[n].delta,
                        old(self).rate(),
                    ),
                    final(self).bias(neur@[n].i as int, neur@[n].j as u32),
                ),
    {
        let lr: u32 = self.lr;
        let mut m: usize = 0;
        while m < neur.len()
            invariant
                self.wf(),
                old(self).wf(),
                old(self).takes(input@, neur@),
                old(self).same_but_params(self),
                is_weight_step(*step_w),
                is_bias_step(*step_b),
                lr == self.rate(),
                m <= neur@.len(),
                forall|i: int, j: u32|
                    old(self).has(i, j) && !lists(neur@.take(m as int), i, j)
                        ==> #[trigger] self.weight(i, j) == old(self).weight(i, j) && self.bias(
                        i,
                        j,
                    ) == old(self).bias(i, j),
                all_at_rest(neur@) && weight_step_rests(*step_w) && bias_step_rests(*step_b)
                    ==> forall|i: int, j: u32|
                    old(self).has(i, j) ==> #[trigger] self.weight(i, j) == old(self).weight(i, j)
                        && self.bias(i, j) == old(self).bias(i, j),
                listed_once(neur@) ==> forall|n: int|
                    0 <= n < m ==> weight_step_gives(
                        *step_w,
                        old(self).weight((#[trigger] neur@[n]).i as int, neur@[n].j as u32),
                        input@,
                        neur@[n].delta,
                        old(self).rate(),
                        self.weight(neur@[n].i as int, neur@[n].j as u32),
                    ) && call_ensures(
                        *step_b,
                        (
                            old(self).bias(neur@[n].i as int, neur@[n].j as u32),
                            neur@[n].delta,
                            old(self).rate(),
                        ),
                        self.bias(neur@[n].i as int, neur@[n].j as u32),
                    ),
            decreases neur@.len() - m,
        {
            let ghost mid = *self;
            let c: Neuron = neur[m];
            let layer: usize = c.i;
            assert(self.layer_wf(layer as int));
            let j: u32 = c.j as u32;
            assert(self.has(layer as int, j));
            let new_w: Vec<u32> = step_w(self.get_weight(layer, c.j), input, c.delta, lr);
            self.set_weight(layer, j, new_w);
            let ghost with_w = *self;
            let new_b: u32 = step_b(self.get_bias(layer, c.j), c.delta, lr);
            self.set_bias(layer, j, new_b);
            proof {
                assert(self.bias(layer as int, j) == new_b);
                assert(self.weight(layer as int, j) == with_w.weight(layer as int, j));
                assert forall|i: int, j2: u32|
                    old(self).has(i, j2) && (i != layer || j2 != j) implies #[trigger] self.weight(
                    i,
                    j2,
                ) == mid.weight(i, j2) && self.bias(i, j2) == mid.bias(i, j2) by {
                    assert(mid.has(i, j2));
                    assert(with_w.weight(i, j2) == mid.weight(i, j2));
                    assert(self.weight(i, j2) == with_w.weight(i, j2));
                    assert(with_w.bias(i, j2) == mid.bias(i, j2));
                }
                assert forall|i: int, j2: u32|
                    old(self).has(i, j2) && !lists(
                        neur@.take(m + 1),
                        i,
                        j2,
                    ) implies #[trigger] self.weight(i, j2) == old(self).weight(i, j2)
                    && self.bias(i, j2) == old(self).bias(i, j2) by {
                    assert(neur@.take(m + 1)[m as int] == c);
                    assert(i != layer || j2 != j);
                    if lists(neur@.take(m as int), i, j2) {
                        let n = choose|n: int|
                            0 <= n < neur@.take(m as int).len() && (#[trigger] neur@.take(
                                m as int,
                            )[n]).i == i && neur@.take(m as int)[n].j == j2;
                        assert(neur@.take(m + 1)[n].i == i);
                    }
                    assert(mid.weight(i, j2) == old(self).weight(i, j2));
                }
                if all_at_rest(neur@) && weight_step_rests(*step_w) && bias_step_rests(*step_b) {
                    assert(c.delta == 0);
                    assert(with_w.weight(layer as int, j) == mid.weight(layer as int, j));
                    assert(self.bias(layer as int, j) == mid.bias(layer as int, j));
                    assert forall|i: int, j2: u32| old(self).has(i, j2) implies #[trigger] self.weight(
                        i,
                        j2,
                    ) == old(self).weight(i, j2) && self.bias(i, j2) == old(self).bias(i, j2) by {
                        assert(mid.weight(i, j2) == old(self).weight(i, j2));
                        if i != layer || j2 != j {
                            assert(self.weight(i, j2) == mid.weight(i, j2));
                        }
                    }
                }
                if listed_once(neur@) {
                    assert(!lists(neur@.take(m as int), layer as int, j)) by {
                        if lists(neur@.take(m as int), layer as int, j) {
                            let n = choose|n: int|
                                0 <= n < neur@.take(m as int).len() && (#[trigger] neur@.take(
                                    m as int,
                                )[n]).i == layer && neur@.take(m as int)[n].j == j;
                            assert(neur@[n].i == neur@[m as int].i);
                        }
                    }
                    assert(mid.weight(layer as int, j) == old(self).weight(layer as int, j));
                    assert forall|n: int| 0 <= n < m + 1 implies weight_step_gives(
                        *step_w,
                        old(self).weight((#[trigger] neur@[n]).i as int, neur@[n].j as u32),
                        input@,
                        neur@[n].delta,
                        old(self).rate(),
                        self.weight(neur@[n].i as int, neur@[n].j as u32),
                    ) && call_ensures(
                        *step_b,
                        (
                            old(self).bias(neur@[n].i as int, neur@[n].j as u32),
                            neur@[n].delta,
                            old(self).rate(),
                        ),
                        self.bias(neur@[n].i as int, neur@[n].j as u32),
                    ) by {
                        if n < m {
                            assert(neur@[n].i != layer || neur@[n].j as u32 != j);
                            assert(old(self).has(neur@[n].i as int, neur@[n].j as u32));
                        }
                    }
                }
            }
            m += 1;
        }
        proof {
            assert(neur@.take(neur@.len() as int) =~= neur@);
            assert forall|i: int, j: u32|
                old(self).has(i, j) && !lists(neur@, i, j) implies #[trigger] self.weight(i, j)
                == old(self).weight(i, j) && self.bias(i, j) == old(self).bias(i, j) by {
                assert(!lists(neur@.take(m as int), i, j));
            }
        }
    }

    /// Whether `acc` can be the share of the error of a perceptron of
    /// layer `l` after the first `k` perceptrons of the next layer handed
    /// theirs back: `start` after none, and for each of them in order what
    /// `back` returns for the share so far, the share of that perceptron,
    /// the component `cj` of its weight, its `z` and the activation of its
    /// layer.
    pub open spec fn is_back_sum<B: Fn(u32, u32, u32, u32, Activation) -> u32>(
        &self,
        back: B,
        l: int,
        start: u32,
        cj: int,
        downstream: Seq<Neuron>,
        k: int,
        acc: u32,
    ) -> bool
        decreases k,
    {
        if k <= 0 {
            acc == start
        } else {
            exists|prev: u32|
                self.is_back_sum(back, l, start, cj, downstream, k - 1, prev)
                    && #[trigger] call_ensures(
                    back,
                    (
                        prev,
                        downstream[k - 1].delta,
                        self.weight(l + 1, downstream[k - 1].j as u32)[cj],
                        downstream[k - 1].z,
                        self.acts()[l + 1],
                    ),
                    acc,
                )
        }
    }

    /// Whether `neurons` holds one list per layer, each of perceptrons of
    /// its layer.
    pub open spec fn lists_layers(&self, neurons: Seq<Vec<Neuron>>) -> bool {
        &&& neurons.len() == self.depth()
        &&& forall|l: int, n: int|
            0 <= l < neurons.len() && 0 <= n < neurons[l]@.len() ==> (#[trigger] neurons[l]@[n]).j
                < self.dims()[l + 1]
    }

    /// Whether `after` lists the perceptrons of `before`, with other shares
    /// of the error at most.
    pub open spec fn same_but_delta(before: Seq<Vec<Neuron>>, after: Seq<Vec<Neuron>>) -> bool {
        &&& after.len() == before.len()
        &&& forall|l: int| 0 <= l < before.len() ==> (#[trigger] after[l])@.len() == before[l]@.len()
        &&& forall|l: int, n: int|
            0 <= l < before.len() && 0 <= n < before[l]@.len() ==> {
                &&& (#[trigger] after[l]@[n]).i == before[l]@[n].i
                &&& after[l]@[n].j == before[l]@[n].j
                &&& after[l]@[n].k == before[l]@[n].k
                &&& after[l]@[n].z == before[l]@[n].z
                &&& after[l]@[n].a == before[l]@[n].a
            }
    }

    /// Gives every perceptron of a pass its share of the error, and returns
    /// the loss. An output gets what `out_delta` returns for the truth of
    /// its class and its activation; the loss is the sum, by `sum`, of what
    /// `term` returns for each output. Then layer by layer towards the
    /// input, each perceptron takes in, by `back`, the share of every
    /// perceptron of the next layer in turn, on top of the share it came
    /// with.
    pub fn backprop<
        T: Fn(u8, u32, usize, Loss, Activation) -> u32,
        A: Fn(u32, u32) -> u32,
        O: Fn(u8, u32, Loss, Activation) -> u32,
        B: Fn(u32, u32, u32, u32, Activation) -> u32,
    >(
        &self,
        neur: &mut Vec<Vec<Neuron>>,
        y_true: &Vec<u8>,
        term: &T,
        sum: &A,
        out_delta: &O,
        back: &B,
    ) -> (loss: u32)
        requires
            self.wf(),
            self.depth() >= 1,
            self.lists_layers(old(neur)@),
            y_true@.len() == self.dims().last(),
            is_loss_term(*term),
            is_sum(*sum),
            is_output_delta(*out_delta),
            is_back_step(*back),
        ensures
            Self::same_but_delta(old(neur)@, final(neur)@),
            forall|n: int|
                0 <= n < old(neur)@.last()@.len() ==> call_ensures(
                    *out_delta,
                    (
                        y_true@[old(neur)@.last()@[n].j as int],
                        old(neur)@.last()@[n].a,
                        self.loss_kind(),
                        self.acts().last(),
                    ),
                    (#[trigger] final(neur)@.last()@[n]).delta,
                ),
            is_loss_sum(
                *term,
                *sum,
                old(neur)@.last()@,
                y_true@,
                self.loss_kind(),
                self.acts().last(),
                old(neur)@.last()@.len() as int,
                loss,
            ),
            forall|l: int, n: int|
                0 <= l < self.depth() - 1 && 0 <= n < old(neur)@[l]@.len() ==> self.is_back_sum(
                    *back,
                    l,
                    old(neur)@[l]@[n].delta,
                    old(neur)@[l]@[n].j as int,
                    final(neur)@[l + 1]@,
                    final(neur)@[l + 1]@.len() as int,
                    (#[trigger] final(neur)@[l]@[n]).delta,
                ),
    {
        let last: usize = self.n_layers - 2;
        let ghost orig = neur@;
        let act_last: Activation = self.activations[last];
        let count: usize = neur[last].len();
        let mut loss: u32 = 0;
        let mut outs: Vec<Neuron> = Vec::with_capacity(count);
        let mut n: usize = 0;
        while n < count
            invariant
                self.wf(),
                self.depth() >= 1,
                last == self.depth() - 1,
                neur@ == orig,
                self.lists_layers(orig),
                y_true@.len() == self.dims().last(),
                is_loss_term(*term),
                is_sum(*sum),
                is_output_delta(*out_delta),
                act_last == self.acts().last(),
                count == orig[last as int]@.len(),
                n <= count,
                outs@.len() == n,
                is_loss_sum(
                    *term,
                    *sum,
                    orig[last as int]@,
                    y_true@,
                    self.loss_kind(),
                    act_last,
                    n as int,
                    loss,
                ),
                forall|m: int|
                    0 <= m < n ==> {
                        &&& (#[trigger] outs@[m]).i == orig[last as int]@[m].i
                        &&& outs@[m].j == orig[last as int]@[m].j
                        &&& outs@[m].k == orig[last as int]@[m].k
                        &&& outs@[m].z == orig[last as int]@[m].z
                        &&& outs@[m].a == orig[last as int]@[m].a
                        &&& call_ensures(
                            *out_delta,
                            (
                                y_true@[orig[last as int]@[m].j as int],
                                orig[last as int]@[m].a,
                                self.loss_kind(),
                                act_last,
                            ),
                            outs@[m].delta,
                        )
                    },
            decreases count - n,
        {
            let c: Neuron = neur[last][n];
            assert(c == orig[last as int]@[n as int]);
            assert(c.j < self.dims()[last + 1]);
            let y: u8 = y_true[c.j];
            let t: u32 = term(y, c.a, count, self.loss, act_last);
            let ghost prev = loss;
            loss = sum(loss, t);
            let delta: u32 = out_delta(y, c.a, self.loss, act_last);
            outs.push(Neuron { i: c.i, j: c.j, k: c.k, z: c.z, a: c.a, delta });
            proof {
                assert(is_loss_sum(
                    *term,
                    *sum,
                    orig[last as int]@,
                    y_true@,
                    self.loss_kind(),
                    act_last,
                    n as int,
                    prev,
                ));
                assert(call_ensures(*sum, (prev, t), loss));
            }
            n += 1;
        }
        neur[last] = outs;
        let mut l: usize = last;
        while l > 0
            invariant
                self.wf(),
                self.depth() >= 1,
                last == self.depth() - 1,
                0 <= l <= last,
                self.lists_layers(orig),
                is_back_step(*back),
                Self::same_but_delta(orig, neur@),
                forall|l2: int| 0 <= l2 < l ==> #[trigger] neur@[l2] == orig[l2],
                forall|m: int|
                    0 <= m < orig[last as int]@.len() ==> call_ensures(
                        *out_delta,
                        (
                            y_true@[orig[last as int]@[m].j as int],
                            orig[last as int]@[m].a,
                            self.loss_kind(),
                            self.acts().last(),
                        ),
                        (#[trigger] neur@[last as int]@[m]).delta,
                    ),
                forall|l2: int, m: int|
                    l <= l2 < last && 0 <= m < orig[l2]@.len() ==> self.is_back_sum(
                        *back,
                        l2,
                        orig[l2]@[m].delta,
                        orig[l2]@[m].j as int,
                        neur@[l2 + 1]@,
                        neur@[l2 + 1]@.len() as int,
                        (#[trigger] neur@[l2]@[m]).delta,
                    ),
            decreases l,
        {
            l -= 1;
            let ghost before = neur@;
            let act: Activation = self.activations[l + 1];
            let size: usize = neur[l].len();
            let mut cur: Vec<Neuron> = Vec::with_capacity(size);
            let mut m: usize = 0;
            while m < size
                invariant
                    self.wf(),
                    0 <= l < last,
                    last == self.depth() - 1,
                    self.lists_layers(orig),
                    is_back_step(*back),
                    Self::same_but_delta(orig, neur@),
                    neur@ == before,
                    neur@[l as int] == orig[l as int],
                    act == self.acts()[l + 1],
                    size == orig[l as int]@.len(),
                    m <= size,
                    cur@.len() == m,
                    forall|q: int|
                        0 <= q < m ==> {
                            &&& (#[trigger] cur@[q]).i == orig[l as int]@[q].i
                            &&& cur@[q].j == orig[l as int]@[q].j
                            &&& cur@[q].k == orig[l as int]@[q].k
                            &&& cur@[q].z == orig[l as int]@[q].z
                            &&& cur@[q].a == orig[l as int]@[q].a
                            &&& self.is_back_sum(
                                *back,
                                l as int,
                                orig[l as int]@[q].delta,
                                orig[l as int]@[q].j as int,
                                neur@[l + 1]@,
                                neur@[l + 1]@.len() as int,
                                cur@[q].delta,
                            )
                        },
                decreases size - m,
            {
                let c: Neuron = neur[l][m];
                assert(c == orig[l as int]@[m as int]);
                assert(c.j < self.dims()[l + 1]);
                let mut acc: u32 = c.delta;
                let mut k: usize = 0;
                while k < neur[l + 1].len()
                    invariant
                        self.wf(),
                        0 <= l < last,
                        last == self.depth() - 1,
                        self.lists_layers(orig),
                        is_back_step(*back),
                        Self::same_but_delta(orig, neur@),
                        act == self.acts()[l + 1],
                        c.j < self.dims()[l + 1],
                        k <= neur@[l + 1]@.len(),
                        self.is_back_sum(
                            *back,
                            l as int,
                            c.delta,
                            c.j as int,
                            neur@[l + 1]@,
                            k as int,
                            acc,
                        ),
                    decreases neur@[l + 1]@.len() - k,
                {
                    let d: Neuron = neur[l + 1][k];
                    assert(d.j == orig[l + 1]@[k as int].j);
                    assert(d.j < self.dims()[l + 2]);
                    assert(self.layer_wf(l + 1));
                    let w = self.get_weight(l + 1, d.j);
                    let ghost prev = acc;
                    acc = back(acc, d.delta, w[c.j], d.z, act);
                    proof {
                        assert(self.is_back_sum(
                            *back,
                            l as int,
                            c.delta,
                            c.j as int,
                            neur@[l + 1]@,
                            k as int,
                            prev,
                        ));
                        assert(call_ensures(
                            *back,
                            (
                                prev,
                                neur@[l + 1]@[k as int].delta,
                                self.weight(l + 1, neur@[l + 1]@[k as int].j as u32)[c.j as int],
                                neur@[l + 1]@[k as int].z,
                                self.acts()[l + 1],
                            ),
                            acc,
                        ));
                    }
                    k += 1;
                }
                cur.push(Neuron { i: c.i, j: c.j, k: c.k, z: c.z, a: c.a, delta: acc });
                m += 1;
            }
            neur[l] = cur;
            proof {
                assert forall|l2: int, q: int|
                    l <= l2 < last && 0 <= q < orig[l2]@.len() implies self.is_back_sum(
                    *back,
                    l2,
                    orig[l2]@[q].delta,
                    orig[l2]@[q].j as int,
                    neur@[l2 + 1]@,
                    neur@[l2 + 1]@.len() as int,
                    (#[trigger] neur@[l2]@[q]).delta,
                ) by {
                    if l2 > l {
                        assert(neur@[l2] == before[l2]);
                        assert(neur@[l2 + 1] == before[l2 + 1]);
                        assert(self.is_back_sum(
                            *back,
                            l2,
                            orig[l2]@[q].delta,
                            orig[l2]@[q].j as int,
                            before[l2 + 1]@,
                            before[l2 + 1]@.len() as int,
                            before[l2]@[q].delta,
                        ));
                    } else {
                        assert(neur@[l + 1] == before[l + 1]);
                    }
                }
                assert forall|m: int| 0 <= m < orig[last as int]@.len() implies call_ensures(
                    *out_delta,
                    (
                        y_true@[orig[last as int]@[m].j as int],
                        orig[last as int]@[m].a,
                        self.loss_kind(),
                        self.acts().last(),
                    ),
                    (#[trigger] neur@[last as int]@[m]).delta,
                ) by {
                    assert(neur@[last as int] == before[last as int]);
                    assert(before[last as int]@[m].delta == neur@[last as int]@[m].delta);
                }
            }
        }
        loss
    }

    /// A pass computes the same for the same input: where what `unit`
    /// returns depends on its arguments alone, two passes on one input give
    /// every layer the same input.
    pub proof fn lemma_pass_inputs_agree<F: Fn(&Vec<u32>, &Vec<u32>, u32, Activation) -> (u32, u32)>(
        &self,
        x: Seq<u32>,
        unit: F,
        first: (Seq<Vec<Neuron>>, Seq<Vec<u32>>),
        second: (Seq<Vec<Neuron>>, Seq<Vec<u32>>),
        i: int,
    )
        requires
            self.wf(),
            is_deterministic(unit),
            self.is_pass(x, unit, first.0, first.1),
            self.is_pass(x, unit, second.0, second.1),
            0 <= i < self.depth(),
        ensures
            first.1[i]@ == second.1[i]@,
        decreases i,
    {
        if i > 0 {
            self.lemma_pass_inputs_agree(x, unit, first, second, i - 1);
            let input = first.1[i - 1]@;
            let last = i - 1 == self.depth() - 1;
            let a = first.0[i - 1]@;
            let b = second.0[i - 1]@;
            assert(self.is_layer_output(i - 1, input, last, unit, a));
            assert(self.is_layer_output(i - 1, input, last, unit, b));
            assert forall|n: int| 0 <= n < a.len() implies names_with(
                b,
                (#[trigger] a[n]).j,
                a[n].a,
            ) by {
                self.lemma_layer_lists_the_same(i - 1, input, last, unit, a, b, n);
                let m = choose|m: int| 0 <= m < b.len() && (#[trigger] b[m]).j == a[n].j;
                self.lemma_layer_is_deterministic(i - 1, input, last, unit, a, b, n, m);
            }
            assert forall|m: int| 0 <= m < b.len() implies names(a, (#[trigger] b[m]).j) by {
                self.lemma_layer_lists_the_same(i - 1, input, last, unit, b, a, m);
            }
            lemma_sparse_input_agrees(a, b, self.dims()[i] as nat);
        }
    }

    /// A pass computes the same for the same input: where what `unit`
    /// returns depends on its arguments alone, two passes on one input agree
    /// in `z` and `a` on every perceptron that both list in a layer, and
    /// each lists what the other lists.
    pub proof fn lemma_pass_is_deterministic<F: Fn(&Vec<u32>, &Vec<u32>, u32, Activation) -> (u32, u32)>(
        &self,
        x: Seq<u32>,
        unit: F,
        first: (Seq<Vec<Neuron>>, Seq<Vec<u32>>),
        second: (Seq<Vec<Neuron>>, Seq<Vec<u32>>),
        i: int,
        n: int,
    )
        requires
            self.wf(),
            is_deterministic(unit),
            self.is_pass(x, unit, first.0, first.1),
            self.is_pass(x, unit, second.0, second.1),
            0 <= i < self.depth(),
            0 <= n < first.0[i]@.len(),
        ensures
            exists|m: int|
                0 <= m < second.0[i]@.len() && (#[trigger] second.0[i]@[m]).j == first.0[i]@[n].j
                    && second.0[i]@[m].z == first.0[i]@[n].z && second.0[i]@[m].a
                    == first.0[i]@[n].a,
    {
        self.lemma_pass_inputs_agree(x, unit, first, second, i);
        let input = first.1[i]@;
        let last = i == self.depth() - 1;
        let a = first.0[i]@;
        let b = second.0[i]@;
        assert(self.is_layer_output(i, input, last, unit, a));
        assert(self.is_layer_output(i, input, last, unit, b));
        self.lemma_layer_lists_the_same(i, input, last, unit, a, b, n);
        let m = choose|m: int| 0 <= m < b.len() && (#[trigger] b[m]).j == a[n].j;
        self.lemma_layer_is_deterministic(i, input, last, unit, a, b, n, m);
    }
}

} // verus!
