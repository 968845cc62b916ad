//! Evaluating a plan. The arithmetic on the encoded real numbers is the
//! caller's: the library decides what is combined with what, and in which
//! order.

use std::collections::{HashMap, HashSet};
use vstd::prelude::*;
use crate::genome::contains_id;
use crate::nn::{known_before, FeedForwardNeuralNetwork, NetworkView, NeuronInput, NeuronView};
use crate::scalar::ZERO;

verus! {

broadcast use vstd::std_specs::hash::group_hash_axioms;

/// The values after the first `n` inputs were stored under their ids.
pub open spec fn seeded(input_ids: Seq<i32>, inputs: Seq<u32>, n: nat) -> Map<i32, u32>
    decreases n,
{
    if n == 0 {
        Map::empty()
    } else {
        seeded(input_ids, inputs, (n - 1) as nat).insert(input_ids[n - 1], inputs[n - 1])
    }
}

/// The values of `base` after zero was stored under the first `n` output
/// ids.
pub open spec fn zeroed(base: Map<i32, u32>, output_ids: Seq<i32>, n: nat) -> Map<i32, u32>
    decreases n,
{
    if n == 0 {
        base
    } else {
        zeroed(base, output_ids, (n - 1) as nat).insert(output_ids[n - 1], ZERO)
    }
}

/// The values before the first step: the inputs under the ids of the
/// inputs, and zero under the ids of the outputs.
pub open spec fn initial_values(net: NetworkView, inputs: Seq<u32>) -> Map<i32, u32> {
    zeroed(seeded(net.input_ids, inputs, inputs.len()), net.output_ids, net.output_ids.len())
}

/// Whether `sum` can come of starting at zero and taking in, one after the
/// other, the first `n` of the values that a neuron reads, each with its
/// weight.
pub open spec fn adds_up<M: Fn(u32, u32, u32) -> u32>(
    accumulate: &M,
    values: Map<i32, u32>,
    reads: Seq<NeuronInput>,
    n: nat,
    sum: u32,
) -> bool
    decreases n,
{
    if n == 0 {
        sum == ZERO
    } else {
        exists|before: u32|
            adds_up(accumulate, values, reads, (n - 1) as nat, before) && #[trigger] call_ensures(
                accumulate,
                (before, values[reads[n - 1].input_id], reads[n - 1].weight),
                sum,
            )
    }
}

/// Whether `value` can be the value of a step: the sum of what it reads,
/// then the bias added, then rectified unless the neuron is an output.
pub open spec fn settles<M: Fn(u32, u32, u32) -> u32, A: Fn(u32, u32) -> u32, R: Fn(u32) -> u32>(
    net: NetworkView,
    accumulate: &M,
    add_bias: &A,
    rectify: &R,
    values: Map<i32, u32>,
    step: NeuronView,
    value: u32,
) -> bool {
    exists|sum: u32, raw: u32| #[trigger]
        adds_up(accumulate, values, step.inputs, step.inputs.len(), sum) && #[trigger] call_ensures(
            add_bias,
            (sum, step.bias),
            raw,
        ) && if net.output_ids.contains(step.id) {
            value == raw
        } else {
            call_ensures(rectify, (raw,), value)
        }
}

/// Whether `values` can be the values after the first `k` steps.
pub open spec fn evaluated<M: Fn(u32, u32, u32) -> u32, A: Fn(u32, u32) -> u32, R: Fn(u32) -> u32>(
    net: NetworkView,
    inputs: Seq<u32>,
    accumulate: &M,
    add_bias: &A,
    rectify: &R,
    k: nat,
    values: Map<i32, u32>,
) -> bool
    decreases k,
{
    if k == 0 {
        values == initial_values(net, inputs)
    } else {
        let step = net.neurons[k - 1];
        exists|before: Map<i32, u32>, value: u32|
            evaluated(net, inputs, accumulate, add_bias, rectify, (k - 1) as nat, before) && #[trigger] settles(
                net,
                accumulate,
                add_bias,
                rectify,
                before,
                step,
                value,
            ) && values == before.insert(step.id, value)
    }
}

/// The values under the ids of the outputs, in their order.
pub open spec fn read_out(output_ids: Seq<i32>, values: Map<i32, u32>) -> Seq<u32> {
    output_ids.map_values(|id: i32| values[id])
}

impl FeedForwardNeuralNetwork {
    /// Tells whether the plan can be evaluated from front to back without
    /// ever missing a value.
    pub fn is_evaluable(&self) -> (r: bool)
        ensures
            r == self@.evaluable(),
    {
        let mut known: HashSet<i32> = HashSet::new();
        let mut a: usize = 0;
        while a < self.input_ids.len()
            invariant
                a <= self.input_ids.len(),
                forall|x: i32| #[trigger] known@.contains(x) <==> self.input_ids@.take(a as int).contains(x),
            decreases self.input_ids.len() - a,
        {
            proof {
                assert(self.input_ids@.take(a + 1) == self.input_ids@.take(a as int).push(self.input_ids@[a as int]));
                lemma_contains_after_push(self.input_ids@.take(a as int), self.input_ids@[a as int]);
            }
            known.insert(self.input_ids[a]);
            a += 1;
        }
        assert(self.input_ids@.take(self.input_ids.len() as int) == self.input_ids@);
        let mut b: usize = 0;
        while b < self.output_ids.len()
            invariant
                b <= self.output_ids.len(),
                forall|x: i32| #[trigger]
                    known@.contains(x) <==> self.input_ids@.contains(x) || self.output_ids@.take(b as int).contains(
                        x,
                    ),
            decreases self.output_ids.len() - b,
        {
            proof {
                assert(self.output_ids@.take(b + 1) == self.output_ids@.take(b as int).push(
                    self.output_ids@[b as int],
                ));
                lemma_contains_after_push(self.output_ids@.take(b as int), self.output_ids@[b as int]);
            }
            known.insert(self.output_ids[b]);
            b += 1;
        }
        assert(self.output_ids@.take(self.output_ids.len() as int) == self.output_ids@);
        let ghost net = self@;
        let mut k: usize = 0;
        while k < self.neurons.len()
            invariant
                k <= self.neurons.len(),
                net == self@,
                forall|x: i32| #[trigger] known@.contains(x) <==> known_before(
                    net.input_ids,
                    net.output_ids,
                    net.neurons,
                    k as int,
                    x,
                ),
                forall|m: int, j: int|
                    0 <= m < k && 0 <= j < net.neurons[m].inputs.len() ==> known_before(
                        net.input_ids,
                        net.output_ids,
                        net.neurons,
                        m,
                        #[trigger] net.neurons[m].inputs[j].input_id,
                    ),
            decreases self.neurons.len() - k,
        {
            let neuron = &self.neurons[k];
            assert(net.neurons[k as int] == neuron@);
            let mut j: usize = 0;
            while j < neuron.inputs.len()
                invariant
                    j <= neuron.inputs.len(),
                    k < self.neurons.len(),
                    net == self@,
                    net.neurons[k as int] == neuron@,
                    forall|x: i32| #[trigger] known@.contains(x) <==> known_before(
                        net.input_ids,
                        net.output_ids,
                        net.neurons,
                        k as int,
                        x,
                    ),
                    forall|i: int|
                        0 <= i < j ==> known_before(
                            net.input_ids,
                            net.output_ids,
                            net.neurons,
                            k as int,
                            #[trigger] neuron.inputs@[i].input_id,
                        ),
                decreases neuron.inputs.len() - j,
            {
                if !known.contains(&neuron.inputs[j].input_id) {
                    proof {
                        let source = net.neurons[k as int].inputs[j as int].input_id;
                        assert(!known_before(net.input_ids, net.output_ids, net.neurons, k as int, source));
                    }
                    return false;
                }
                j += 1;
            }
            let ghost before = known@;
            known.insert(neuron.id);
            proof {
                assert forall|x: i32| #[trigger] known@.contains(x) <==> known_before(
                    net.input_ids,
                    net.output_ids,
                    net.neurons,
                    k + 1,
                    x,
                ) by {
                    if known_before(net.input_ids, net.output_ids, net.neurons, k + 1, x) && !before.contains(x) {
                        let m = choose|m: int| 0 <= m < k + 1 && (#[trigger] net.neurons[m]).id == x;
                        if m < k {
                            assert(known_before(net.input_ids, net.output_ids, net.neurons, k as int, x));
                        }
                    }
                    if before.contains(x) {
                        assert(known_before(net.input_ids, net.output_ids, net.neurons, k as int, x));
                        if !net.input_ids.contains(x) && !net.output_ids.contains(x) {
                            let m = choose|m: int| 0 <= m < k && (#[trigger] net.neurons[m]).id == x;
                            assert(0 <= m < k + 1);
                        }
                    }
                    if x == neuron.id {
                        assert(net.neurons[k as int].id == x);
                    }
                }
                assert forall|m: int, j: int|
                    0 <= m < k + 1 && 0 <= j < net.neurons[m].inputs.len() implies known_before(
                    net.input_ids,
                    net.output_ids,
                    net.neurons,
                    m,
                    #[trigger] net.neurons[m].inputs[j].input_id,
                ) by {
                    if m == k {
                        assert(known_before(
                            net.input_ids,
                            net.output_ids,
                            net.neurons,
                            k as int,
                            neuron.inputs@[j].input_id,
                        ));
                    }
                }
            }
            k += 1;
        }
        true
    }

    /// Evaluates the plan on the given inputs and returns the values of the
    /// outputs, in the order of their ids. The inputs are stored under the
    /// ids of the inputs and zero under the ids of the outputs. Then every
    /// step, in order, takes in the values that it reads with their weights
    /// (`accumulate`, starting from zero), has its bias added (`add_bias`), is
    /// rectified unless it is an output (`rectify`), and is stored under its
    /// id. There must be as many inputs as input ids, and the plan must be
    /// evaluable.
    pub fn activate<M: Fn(u32, u32, u32) -> u32, A: Fn(u32, u32) -> u32, R: Fn(u32) -> u32>(
        &self,
        inputs: &Vec<u32>,
        accumulate: &M,
        add_bias: &A,
        rectify: &R,
    ) -> (outputs: Vec<u32>)
        requires
            inputs.len() == self.input_ids.len(),
            self@.evaluable(),
            forall|sum: u32, value: u32, weight: u32| call_requires(accumulate, (sum, value, weight)),
            forall|sum: u32, bias: u32| call_requires(add_bias, (sum, bias)),
            forall|raw: u32| call_requires(rectify, (raw,)),
        ensures
            outputs@.len() == self.output_ids@.len(),
            exists|values: Map<i32, u32>| #[trigger]
                evaluated(self@, inputs@, accumulate, add_bias, rectify, self.neurons@.len(), values) && outputs@
                    == read_out(self.output_ids@, values),
    {
        let ghost net = self@;
        let mut values: HashMap<i32, u32> = HashMap::new();
        let mut a: usize = 0;
        while a < inputs.len()
            invariant
                a <= inputs.len(),
                inputs.len() == self.input_ids.len(),
                values@ == seeded(self.input_ids@, inputs@, a as nat),
                forall|i: int| 0 <= i < a ==> values@.contains_key(#[trigger] self.input_ids@[i]),
            decreases inputs.len() - a,
        {
            values.insert(self.input_ids[a], inputs[a]);
            a += 1;
        }
        let ghost base = values@;
        let mut b: usize = 0;
        while b < self.output_ids.len()
            invariant
                b <= self.output_ids.len(),
                values@ == zeroed(base, self.output_ids@, b as nat),
                forall|x: i32| base.contains_key(x) ==> #[trigger] values@.contains_key(x),
                forall|i: int| 0 <= i < b ==> values@.contains_key(#[trigger] self.output_ids@[i]),
            decreases self.output_ids.len() - b,
        {
            values.insert(self.output_ids[b], ZERO);
            b += 1;
        }
        assert(values@ == initial_values(net, inputs@));
        let mut k: usize = 0;
        while k < self.neurons.len()
            invariant
                k <= self.neurons.len(),
                net == self@,
                net.evaluable(),
                forall|sum: u32, value: u32, weight: u32| call_requires(accumulate, (sum, value, weight)),
                forall|sum: u32, bias: u32| call_requires(add_bias, (sum, bias)),
                forall|raw: u32| call_requires(rectify, (raw,)),
                evaluated(net, inputs@, accumulate, add_bias, rectify, k as nat, values@),
                forall|x: i32|
                    known_before(net.input_ids, net.output_ids, net.neurons, k as int, x)
                        ==> #[trigger] values@.contains_key(x),
            decreases self.neurons.len() - k,
        {
            let neuron = &self.neurons[k];
            let ghost step = net.neurons[k as int];
            let ghost before = values@;
            assert(step == neuron@);
            let mut sum: u32 = ZERO;
            let mut j: usize = 0;
            while j < neuron.inputs.len()
                invariant
                    j <= neuron.inputs.len(),
                    k < self.neurons.len(),
                    net == self@,
                    net.evaluable(),
                    step == net.neurons[k as int],
                    step == neuron@,
                    values@ == before,
                    forall|sum: u32, value: u32, weight: u32| call_requires(accumulate, (sum, value, weight)),
                    forall|x: i32|
                        known_before(net.input_ids, net.output_ids, net.neurons, k as int, x)
                            ==> #[trigger] values@.contains_key(x),
                    adds_up(accumulate, before, step.inputs, j as nat, sum),
                decreases neuron.inputs.len() - j,
            {
                let read = neuron.inputs[j];
                proof {
                    assert(net.neurons[k as int].inputs[j as int].input_id == read.input_id);
                    assert(known_before(net.input_ids, net.output_ids, net.neurons, k as int, read.input_id));
                }
                let value = *values.get(&read.input_id).unwrap();
                let ghost so_far = sum;
                sum = accumulate(sum, value, read.weight);
                proof {
                    let n = (j + 1) as nat;
                    assert((n - 1) as nat == j as nat);
                    assert(value == before[step.inputs[n - 1].input_id]);
                    assert(adds_up(accumulate, before, step.inputs, (n - 1) as nat, so_far) && call_ensures(
                        accumulate,
                        (so_far, before[step.inputs[n - 1].input_id], step.inputs[n - 1].weight),
                        sum,
                    ));
                    assert(adds_up(accumulate, before, step.inputs, n, sum));
                }
                j += 1;
            }
            let raw = add_bias(sum, neuron.bias);
            let value = if contains_id(&self.output_ids, neuron.id) {
                raw
            } else {
                rectify(raw)
            };
            proof {
                assert(adds_up(accumulate, before, step.inputs, step.inputs.len(), sum) && call_ensures(
                    add_bias,
                    (sum, step.bias),
                    raw,
                ));
                assert(settles(net, accumulate, add_bias, rectify, before, step, value));
            }
            values.insert(neuron.id, value);
            proof {
                let n = (k + 1) as nat;
                assert((n - 1) as nat == k as nat);
                assert(net.neurons[n - 1] == step);
                assert(evaluated(net, inputs@, accumulate, add_bias, rectify, (n - 1) as nat, before) && settles(
                    net,
                    accumulate,
                    add_bias,
                    rectify,
                    before,
                    net.neurons[n - 1],
                    value,
                ) && values@ == before.insert(net.neurons[n - 1].id, value));
                assert(evaluated(net, inputs@, accumulate, add_bias, rectify, n, values@));
                assert forall|x: i32|
                    known_before(
                        net.input_ids,
                        net.output_ids,
                        net.neurons,
                        k + 1,
                        x,
                    ) implies #[trigger] values@.contains_key(x) by {
                    if !net.input_ids.contains(x) && !net.output_ids.contains(x) {
                        let m = choose|m: int| 0 <= m < k + 1 && (#[trigger] net.neurons[m]).id == x;
                        if m < k {
                            assert(known_before(net.input_ids, net.output_ids, net.neurons, k as int, x));
                        }
                    } else {
                        assert(known_before(net.input_ids, net.output_ids, net.neurons, k as int, x));
                    }
                }
            }
            k += 1;
        }
        let mut outputs: Vec<u32> = Vec::new();
        let mut o: usize = 0;
        while o < self.output_ids.len()
            invariant
                o <= self.output_ids.len(),
                net == self@,
                outputs@.len() == o,
                forall|x: i32|
                    known_before(net.input_ids, net.output_ids, net.neurons, self.neurons.len() as int, x)
                        ==> #[trigger] values@.contains_key(x),
                forall|i: int| 0 <= i < o ==> #[trigger] outputs@[i] == values@[self.output_ids@[i]],
            decreases self.output_ids.len() - o,
        {
            let id = self.output_ids[o];
            proof {
                assert(net.output_ids.contains(id));
                assert(known_before(net.input_ids, net.output_ids, net.neurons, self.neurons.len() as int, id));
            }
            outputs.push(*values.get(&id).unwrap());
            o += 1;
        }
        proof {
            assert(outputs@ =~= read_out(self.output_ids@, values@));
            assert(net.neurons.len() == self.neurons@.len());
        }
        outputs
    }
}

/// What a sequence holds after one more element was appended.
pub proof fn lemma_contains_after_push(s: Seq<i32>, last: i32)
    ensures
        forall|x: i32| #[trigger] s.push(last).contains(x) <==> s.contains(x) || x == last,
{
    let longer = s.push(last);
    assert forall|x: i32| #[trigger] longer.contains(x) <==> s.contains(x) || x == last by {
        if longer.contains(x) {
            let i = choose|i: int| 0 <= i < longer.len() && longer[i] == x;
            if i < s.len() {
                assert(s[i] == x);
            }
        }
        if s.contains(x) {
            let i = choose|i: int| 0 <= i < s.len() && s[i] == x;
            assert(longer[i] == x);
        }
        assert(longer[s.len() as int] == last);
    }
}

} // verus!
