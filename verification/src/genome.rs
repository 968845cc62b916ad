//! Genes, genomes and individuals.

use vstd::prelude::*;
use crate::graph::{acyclic, is_walk, joins};

verus! {

/// A neuron: its id and its bias (an encoded real number).
#[derive(Clone, Copy, Debug, PartialEq)]
pub struct NeuronGene {
    pub id: i32,
    pub bias: u32,
}

/// The identity of a directed link: source neuron id, then target neuron id.
#[derive(Clone, Copy, Debug, PartialEq, Eq)]
pub struct LinkID {
    pub in_id: i32,
    pub out_id: i32,
}

/// A link: its identity, its weight (an encoded real number), and whether it
/// takes part in the network that is built from the genome.
#[derive(Clone, Copy, Debug, PartialEq)]
pub struct LinkGene {
    pub id: LinkID,
    pub weight: u32,
    pub is_enabled: bool,
}

/// Issues genome ids: each one larger by one than the one before.
#[derive(Clone, Copy, Debug, PartialEq, Eq)]
pub struct GenomeIds {
    pub last: i32,
}

impl GenomeIds {
    /// A counter whose first id will be 1.
    pub fn new() -> (r: GenomeIds)
        ensures
            r.last == 0,
    {
        GenomeIds { last: 0 }
    }
}

/// A network description: neurons and links, referenced by id.
#[derive(Debug, PartialEq)]
pub struct Genome {
    pub id: i32,
    pub num_inputs: i32,
    pub num_outputs: i32,
    pub neurons: Vec<NeuronGene>,
    pub links: Vec<LinkGene>,
}

/// A genome as a mathematical value.
pub struct GenomeView {
    pub id: i32,
    pub num_inputs: i32,
    pub num_outputs: i32,
    pub neurons: Seq<NeuronGene>,
    pub links: Seq<LinkGene>,
}

impl View for Genome {
    type V = GenomeView;

    open spec fn view(&self) -> GenomeView {
        GenomeView {
            id: self.id,
            num_inputs: self.num_inputs,
            num_outputs: self.num_outputs,
            neurons: self.neurons@,
            links: self.links@,
        }
    }
}

/// The ids of `count` inputs: -1, -2, and so on.
pub open spec fn input_id_seq(count: i32) -> Seq<i32> {
    Seq::new(if count > 0 { count as nat } else { 0 }, |i: int| (-i - 1) as i32)
}

/// The ids of `count` outputs: 0, 1, and so on.
pub open spec fn output_id_seq(count: i32) -> Seq<i32> {
    Seq::new(if count > 0 { count as nat } else { 0 }, |i: int| i as i32)
}

impl GenomeView {
    /// Whether `id` is the id of an input.
    pub open spec fn is_input(self, id: i32) -> bool {
        -self.num_inputs <= id < 0
    }

    /// Whether `id` is the id of an output.
    pub open spec fn is_output(self, id: i32) -> bool {
        0 <= id < self.num_outputs
    }

    /// Whether `id` is the id of neither an input nor an output.
    pub open spec fn is_hidden(self, id: i32) -> bool {
        !self.is_input(id) && !self.is_output(id)
    }

    /// Whether some neuron gene has the id.
    pub open spec fn has_neuron(self, id: i32) -> bool {
        exists|i: int| 0 <= i < self.neurons.len() && (#[trigger] self.neurons[i]).id == id
    }

    /// Whether `i` is the position of the first neuron gene with the id.
    pub open spec fn first_neuron_at(self, id: i32, i: int) -> bool {
        &&& 0 <= i < self.neurons.len()
        &&& self.neurons[i].id == id
        &&& forall|j: int| 0 <= j < i ==> (#[trigger] self.neurons[j]).id != id
    }

    /// The first neuron gene with the id, if there is one.
    pub open spec fn neuron_with(self, id: i32) -> Option<NeuronGene> {
        if self.has_neuron(id) {
            Some(self.neurons[choose|i: int| self.first_neuron_at(id, i)])
        } else {
            None
        }
    }

    /// Whether some link gene has the id.
    pub open spec fn has_link(self, id: LinkID) -> bool {
        exists|i: int| 0 <= i < self.links.len() && (#[trigger] self.links[i]).id == id
    }

    /// Whether `i` is the position of the first link gene with the id.
    pub open spec fn first_link_at(self, id: LinkID, i: int) -> bool {
        &&& 0 <= i < self.links.len()
        &&& self.links[i].id == id
        &&& forall|j: int| 0 <= j < i ==> (#[trigger] self.links[j]).id != id
    }

    /// The first link gene with the id, if there is one.
    pub open spec fn link_with(self, id: LinkID) -> Option<LinkGene> {
        if self.has_link(id) {
            Some(self.links[choose|i: int| self.first_link_at(id, i)])
        } else {
            None
        }
    }

    /// The ids of the inputs, in order.
    pub open spec fn input_ids(self) -> Seq<i32> {
        input_id_seq(self.num_inputs)
    }

    /// The ids of the outputs, in order.
    pub open spec fn output_ids(self) -> Seq<i32> {
        output_id_seq(self.num_outputs)
    }

    /// Whether nothing that the genome refers to is missing: every input and
    /// every output has its neuron, no other neuron has a negative id, and
    /// every link joins two neurons of the genome.
    pub open spec fn complete(self) -> bool {
        &&& 0 <= self.num_inputs
        &&& 0 <= self.num_outputs
        &&& forall|id: i32| self.is_input(id) || self.is_output(id) ==> #[trigger] self.has_neuron(id)
        &&& forall|i: int| 0 <= i < self.neurons.len() ==> (#[trigger] self.neurons[i]).id >= -self.num_inputs
        &&& forall|i: int|
            0 <= i < self.links.len() ==> self.has_neuron((#[trigger] self.links[i]).id.in_id)
                && self.has_neuron(self.links[i].id.out_id)
    }

    /// Whether no id occurs twice among the neurons, and none twice among
    /// the links.
    pub open spec fn distinct_ids(self) -> bool {
        &&& forall|i: int, j: int|
            0 <= i < j < self.neurons.len() ==> (#[trigger] self.neurons[i]).id != (
            #[trigger] self.neurons[j]).id
        &&& forall|i: int, j: int|
            0 <= i < j < self.links.len() ==> (#[trigger] self.links[i]).id != (#[trigger] self.links[j]).id
    }

    /// The invariant of a genome's data: it is complete, and no id occurs
    /// twice.
    pub open spec fn well_formed(self) -> bool {
        self.complete() && self.distinct_ids()
    }

    /// Whether no neuron has the id that the next new neuron gets, which is
    /// the number of neurons. It holds until a neuron is removed. It also
    /// holds where the number of neurons is no id any more, and so no
    /// neuron can be added.
    pub open spec fn next_id_free(self) -> bool {
        self.neurons.len() > i32::MAX || !self.has_neuron(self.neurons.len() as i32)
    }
}

/// A genome with the fitness that its last evaluation gave (an encoded real
/// number).
#[derive(Debug, PartialEq)]
pub struct Individual {
    pub genome: Genome,
    pub fitness: u32,
}

impl Clone for Genome {
    fn clone(&self) -> (r: Genome)
        ensures
            r@ == self@,
    {
        let neurons = self.neurons.clone();
        let links = self.links.clone();
        assert(neurons@ =~= self.neurons@);
        assert(links@ =~= self.links@);
        Genome { id: self.id, num_inputs: self.num_inputs, num_outputs: self.num_outputs, neurons, links }
    }
}

impl Clone for Individual {
    fn clone(&self) -> (r: Individual)
        ensures
            r.genome@ == self.genome@,
            r.fitness == self.fitness,
    {
        Individual { genome: self.genome.clone(), fitness: self.fitness }
    }
}

/// Whether the genome is the fully connected one of the given arity: the
/// outputs' neurons, then the inputs' neurons, and an enabled link from every
/// input to every output, input by input.
pub open spec fn fully_connected(genome: GenomeView, num_in: i32, num_out: i32) -> bool {
    let ins = input_id_seq(num_in).len() as int;
    let outs = output_id_seq(num_out).len() as int;
    &&& genome.num_inputs == num_in
    &&& genome.num_outputs == num_out
    &&& genome.neurons.len() == outs + ins
    &&& forall|o: int| 0 <= o < outs ==> (#[trigger] genome.neurons[o]).id == o
    &&& forall|k: int| outs <= k < outs + ins ==> (#[trigger] genome.neurons[k]).id == -(k - outs) - 1
    &&& genome.links.len() == ins * outs
    &&& forall|k: int|
        0 <= k < genome.links.len() ==> {
            &&& (#[trigger] genome.links[k]).id.in_id == -(k / outs) - 1
            &&& genome.links[k].id.out_id == k % outs
            &&& genome.links[k].is_enabled
        }
}

/// Whether every bias and every weight of the genome is a value that `draw`
/// can return.
pub open spec fn drawn_by<F: Fn() -> u32>(draw: &F, genome: GenomeView) -> bool {
    &&& forall|i: int| 0 <= i < genome.neurons.len() ==> call_ensures(draw, (), (#[trigger] genome.neurons[i]).bias)
    &&& forall|i: int| 0 <= i < genome.links.len() ==> call_ensures(draw, (), (#[trigger] genome.links[i]).weight)
}

/// Links that all lead from a negative id to one that is not negative form
/// no cycle.
pub proof fn lemma_forward_links_acyclic(links: Seq<LinkGene>)
    requires
        forall|k: int| 0 <= k < links.len() ==> (#[trigger] links[k]).id.in_id < 0 <= links[k].id.out_id,
    ensures
        acyclic(links),
{
    assert forall|walk: Seq<i32>| #[trigger] is_walk(links, walk) && walk.len() >= 2 implies walk.first()
        != walk.last() by {
        let n = walk.len() as int;
        assert(joins(links, walk[0int], walk[0int + 1]));
        assert(joins(links, walk[n - 2], walk[n - 2 + 1]));
    }
}

/// A position in a table of `rows` rows of `columns` cells, counted row by
/// row, lies in row `k / columns` and column `k % columns`.
pub proof fn lemma_row_and_column(k: int, rows: int, columns: int)
    requires
        0 <= rows,
        0 <= columns,
        0 <= k < rows * columns,
    ensures
        0 <= k / columns < rows,
        0 <= k % columns < columns,
        k == columns * (k / columns) + k % columns,
{
    assert(columns > 0) by (nonlinear_arith)
        requires
            0 <= k < rows * columns,
            0 <= rows,
            0 <= columns,
    ;
    vstd::arithmetic::div_mod::lemma_fundamental_div_mod(k, columns);
    vstd::arithmetic::div_mod::lemma_mod_pos_bound(k, columns);
    vstd::arithmetic::div_mod::lemma_div_pos_is_pos(k, columns);
    let q = k / columns;
    assert(q < rows) by (nonlinear_arith)
        requires
            k == columns * q + k % columns,
            0 <= k % columns,
            k < rows * columns,
            columns > 0,
    ;
}

/// The fully connected genome is well-formed and has no cycle.
pub proof fn lemma_fully_connected_sound(genome: GenomeView, num_in: i32, num_out: i32)
    requires
        fully_connected(genome, num_in, num_out),
    ensures
        num_in >= 0 && num_out >= 0 ==> genome.well_formed(),
        acyclic(genome.links),
        genome.next_id_free(),
{
    let ins = input_id_seq(num_in).len() as int;
    let outs = output_id_seq(num_out).len() as int;
    if genome.neurons.len() <= i32::MAX && genome.has_neuron(genome.neurons.len() as i32) {
        let at = choose|at: int|
            0 <= at < genome.neurons.len() && (#[trigger] genome.neurons[at]).id == genome.neurons.len() as i32;
        if at < outs {
            assert(genome.neurons[at].id == at);
        } else {
            assert(genome.neurons[at].id == -(at - outs) - 1);
        }
    }
    assert forall|k: int| 0 <= k < genome.links.len() implies (#[trigger] genome.links[k]).id.in_id < 0
        <= genome.links[k].id.out_id by {
        lemma_row_and_column(k, ins, outs);
    }
    lemma_forward_links_acyclic(genome.links);
    if num_in >= 0 && num_out >= 0 {
        assert forall|a: int, b: int| 0 <= a < b < genome.links.len() implies (#[trigger] genome.links[a]).id != (
        #[trigger] genome.links[b]).id by {
            lemma_row_and_column(a, ins, outs);
            lemma_row_and_column(b, ins, outs);
            if a / outs == b / outs && a % outs == b % outs {
                assert(a == b);
            }
        }
        assert forall|x: i32| genome.is_input(x) || genome.is_output(x) implies #[trigger] genome.has_neuron(x) by {
            if genome.is_output(x) {
                assert(genome.neurons[x as int].id == x);
            } else {
                assert(genome.neurons[outs + (-x - 1)].id == x);
            }
        }
        assert forall|k: int| 0 <= k < genome.links.len() implies genome.has_neuron(
            (#[trigger] genome.links[k]).id.in_id,
        ) && genome.has_neuron(genome.links[k].id.out_id) by {
            lemma_row_and_column(k, ins, outs);
            assert(genome.is_input(genome.links[k].id.in_id));
            assert(genome.is_output(genome.links[k].id.out_id));
        }
    }
}

impl Genome {
    /// Makes the fully connected genome of the given arity, under the next
    /// id: a neuron for each output (ids 0, 1, ...), a neuron for each input
    /// (ids -1, -2, ...), and an enabled link from every input to every
    /// output. Every bias and every weight is a value that `draw` returned.
    /// An arity below zero counts as zero neurons. No neuron has the id
    /// that the next new neuron will get.
    pub fn new<F: Fn() -> u32>(ids: &mut GenomeIds, num_in: i32, num_out: i32, draw: &F) -> (genome: Genome)
        requires
            old(ids).last < i32::MAX,
            call_requires(draw, ()),
        ensures
            genome.id == old(ids).last + 1,
            final(ids).last == genome.id,
            fully_connected(genome@, num_in, num_out),
            drawn_by(draw, genome@),
            num_in >= 0 && num_out >= 0 ==> genome@.well_formed(),
            acyclic(genome@.links),
            genome@.next_id_free(),
    {
        let id = Genome::genome_indexer(ids);
        let mut neurons: Vec<NeuronGene> = Vec::new();
        let mut links: Vec<LinkGene> = Vec::new();
        let ghost ins = input_id_seq(num_in).len() as int;
        let ghost outs = output_id_seq(num_out).len() as int;
        let mut o: i32 = 0;
        while o < num_out
            invariant
                0 <= o,
                o <= num_out || o == 0,
                neurons.len() == o,
                call_requires(draw, ()),
                forall|k: int| 0 <= k < o ==> (#[trigger] neurons[k]).id == k,
                forall|k: int| 0 <= k < neurons.len() ==> call_ensures(draw, (), (#[trigger] neurons[k]).bias),
            decreases num_out - o,
        {
            neurons.push(NeuronGene { id: o, bias: draw() });
            o += 1;
        }
        assert(neurons.len() == outs);
        let mut i: i32 = 0;
        assert(0 * outs == 0) by (nonlinear_arith);
        while i < num_in
            invariant
                0 <= i,
                i <= num_in || i == 0,
                outs == output_id_seq(num_out).len(),
                neurons.len() == outs + i,
                links.len() == i * outs,
                call_requires(draw, ()),
                forall|k: int| 0 <= k < outs ==> (#[trigger] neurons[k]).id == k,
                forall|k: int| outs <= k < outs + i ==> (#[trigger] neurons[k]).id == -(k - outs) - 1,
                forall|k: int| 0 <= k < neurons.len() ==> call_ensures(draw, (), (#[trigger] neurons[k]).bias),
                forall|k: int| 0 <= k < links.len() ==> call_ensures(draw, (), (#[trigger] links[k]).weight),
                forall|k: int|
                    0 <= k < links.len() ==> {
                        &&& (#[trigger] links[k]).id.in_id == -(k / outs) - 1
                        &&& links[k].id.out_id == k % outs
                        &&& links[k].is_enabled
                    },
            decreases num_in - i,
        {
            let input_id = -i - 1;
            neurons.push(NeuronGene { id: input_id, bias: draw() });
            let mut t: i32 = 0;
            while t < num_out
                invariant
                    0 <= t,
                    t <= num_out || t == 0,
                    0 <= i < num_in,
                    input_id == -i - 1,
                    outs == output_id_seq(num_out).len(),
                    links.len() == i * outs + t,
                    call_requires(draw, ()),
                    forall|k: int| 0 <= k < links.len() ==> call_ensures(draw, (), (#[trigger] links[k]).weight),
                    forall|k: int|
                        0 <= k < links.len() ==> {
                            &&& (#[trigger] links[k]).id.in_id == -(k / outs) - 1
                            &&& links[k].id.out_id == k % outs
                            &&& links[k].is_enabled
                        },
                decreases num_out - t,
            {
                proof {
                    let k = i * outs + t;
                    vstd::arithmetic::div_mod::lemma_fundamental_div_mod_converse(k, outs, i as int, t as int);
                }
                links.push(
                    LinkGene { id: LinkID { in_id: input_id, out_id: t }, weight: draw(), is_enabled: true },
                );
                t += 1;
            }
            assert(links.len() == (i + 1) * outs) by (nonlinear_arith)
                requires
                    links.len() == i * outs + t,
                    t == outs,
            ;
            i += 1;
        }
        let genome = Genome { id, num_inputs: num_in, num_outputs: num_out, neurons, links };
        proof {
            assert(i == ins);
            lemma_fully_connected_sound(genome@, num_in, num_out);
        }
        genome
    }

    /// Issues the next genome id.
    pub fn genome_indexer(ids: &mut GenomeIds) -> (id: i32)
        requires
            old(ids).last < i32::MAX,
        ensures
            id == old(ids).last + 1,
            final(ids).last == id,
    {
        ids.last = ids.last + 1;
        ids.last
    }

    /// Finds the first neuron gene with the id.
    pub fn find_neuron(&self, id: &i32) -> (r: Option<&NeuronGene>)
        ensures
            match r {
                Some(gene) => self@.neuron_with(*id) == Some(*gene) && gene.id == *id,
                None => !self@.has_neuron(*id),
            },
    {
        let mut i: usize = 0;
        while i < self.neurons.len()
            invariant
                i <= self.neurons.len(),
                forall|j: int| 0 <= j < i ==> (#[trigger] self.neurons[j]).id != *id,
            decreases self.neurons.len() - i,
        {
            if self.neurons[i].id == *id {
                proof {
                    let k = choose|k: int| self@.first_neuron_at(*id, k);
                    assert(self@.first_neuron_at(*id, i as int));
                    assert(self@.neurons[i as int].id == *id);
                    if k < i {
                        assert(self@.neurons[k].id != *id);
                    }
                    if i < k {
                        assert(self@.neurons[i as int].id != *id);
                    }
                }
                return Some(&self.neurons[i]);
            }
            i += 1;
        }
        None
    }

    /// Finds the first link gene with the id.
    pub fn find_link(&self, id: &LinkID) -> (r: Option<&LinkGene>)
        ensures
            match r {
                Some(gene) => self@.link_with(*id) == Some(*gene) && gene.id == *id,
                None => !self@.has_link(*id),
            },
    {
        match self.link_position(id) {
            Some(i) => Some(&self.links[i]),
            None => None,
        }
    }

    /// Finds the first link gene with the id, to change it. Its position and
    /// all other genes stay as they are.
    pub fn find_link_mut(&mut self, id: &LinkID) -> (r: Option<&mut LinkGene>)
        ensures
            match r {
                Some(gene) => {
                    &&& old(self)@.link_with(*id) == Some(*gene)
                    &&& exists|i: int| #[trigger]
                        old(self)@.first_link_at(*id, i) && final(self)@.links == old(self)@.links.update(
                            i,
                            *final(gene),
                        )
                    &&& final(self)@.neurons == old(self)@.neurons
                    &&& final(self).id == old(self).id
                    &&& final(self).num_inputs == old(self).num_inputs
                    &&& final(self).num_outputs == old(self).num_outputs
                },
                None => !old(self)@.has_link(*id) && final(self)@ == old(self)@,
            },
    {
        match self.link_position(id) {
            Some(i) => Some(&mut self.links[i]),
            None => None,
        }
    }

    /// Finds the position of the first link gene with the id.
    pub fn link_position(&self, id: &LinkID) -> (r: Option<usize>)
        ensures
            match r {
                Some(i) => self@.first_link_at(*id, i as int) && self@.link_with(*id) == Some(self.links[i as int]),
                None => !self@.has_link(*id),
            },
    {
        let mut i: usize = 0;
        while i < self.links.len()
            invariant
                i <= self.links.len(),
                forall|j: int| 0 <= j < i ==> (#[trigger] self.links[j]).id != *id,
            decreases self.links.len() - i,
        {
            if self.links[i].id.in_id == id.in_id && self.links[i].id.out_id == id.out_id {
                proof {
                    let k = choose|k: int| self@.first_link_at(*id, k);
                    assert(self@.first_link_at(*id, i as int));
                    assert(self@.links[i as int].id == *id);
                    if k < i {
                        assert(self@.links[k].id != *id);
                    }
                    if i < k {
                        assert(self@.links[i as int].id != *id);
                    }
                }
                return Some(i);
            }
            i += 1;
        }
        None
    }

    /// Lists the ids of the inputs: -1, -2, and so on.
    pub fn make_input_ids(&self) -> (inputs: Vec<i32>)
        ensures
            inputs@ == self@.input_ids(),
    {
        let mut inputs: Vec<i32> = Vec::new();
        let mut i: i32 = 0;
        while i < self.num_inputs
            invariant
                0 <= i,
                i <= self.num_inputs || i == 0,
                inputs@.len() == i,
                forall|j: int| 0 <= j < i ==> inputs[j] == -j - 1,
            decreases self.num_inputs - i,
        {
            inputs.push(-i - 1);
            i += 1;
        }
        assert(inputs@ =~= self@.input_ids());
        inputs
    }

    /// Lists the ids of the outputs: 0, 1, and so on.
    pub fn make_output_ids(&self) -> (outputs: Vec<i32>)
        ensures
            outputs@ == self@.output_ids(),
    {
        let mut outputs: Vec<i32> = Vec::new();
        let mut i: i32 = 0;
        while i < self.num_outputs
            invariant
                0 <= i,
                i <= self.num_outputs || i == 0,
                outputs@.len() == i,
                forall|j: int| 0 <= j < i ==> outputs[j] == j,
            decreases self.num_outputs - i,
        {
            outputs.push(i);
            i += 1;
        }
        assert(outputs@ =~= self@.output_ids());
        outputs
    }
}

/// Tells whether a list of ids holds a given id.
pub fn contains_id(ids: &Vec<i32>, id: i32) -> (r: bool)
    ensures
        r == ids@.contains(id),
{
    let mut i: usize = 0;
    while i < ids.len()
        invariant
            i <= ids.len(),
            forall|j: int| 0 <= j < i ==> ids[j] != id,
        decreases ids.len() - i,
    {
        if ids[i] == id {
            return true;
        }
        i += 1;
    }
    false
}

/// A genome stays complete, and stays well-formed, when only weights and
/// switches of its links change.
pub proof fn lemma_same_ids_well_formed(before: GenomeView, after: GenomeView)
    requires
        after.num_inputs == before.num_inputs,
        after.num_outputs == before.num_outputs,
        after.neurons == before.neurons,
        after.links.len() == before.links.len(),
        forall|k: int| 0 <= k < after.links.len() ==> (#[trigger] after.links[k]).id == before.links[k].id,
    ensures
        before.complete() ==> after.complete(),
        before.well_formed() ==> after.well_formed(),
{
    if before.complete() {
        assert forall|k: int| 0 <= k < after.links.len() implies after.has_neuron(
            (#[trigger] after.links[k]).id.in_id,
        ) && after.has_neuron(after.links[k].id.out_id) by {
            assert(before.has_neuron(before.links[k].id.in_id));
            assert(before.has_neuron(before.links[k].id.out_id));
        }
        assert forall|x: i32| after.is_input(x) || after.is_output(x) implies #[trigger] after.has_neuron(x) by {
            assert(before.has_neuron(x));
        }
    }
    if before.distinct_ids() {
        assert forall|a: int, b: int| 0 <= a < b < after.links.len() implies (#[trigger] after.links[a]).id != (
        #[trigger] after.links[b]).id by {
            assert(before.links[a].id != before.links[b].id);
        }
    }
}

/// Where a neuron has the id, a first one has it.
pub proof fn lemma_first_neuron_exists(genome: GenomeView, id: i32)
    requires
        genome.has_neuron(id),
    ensures
        exists|i: int| genome.first_neuron_at(id, i),
{
    let some = choose|i: int| 0 <= i < genome.neurons.len() && (#[trigger] genome.neurons[i]).id == id;
    lemma_first_neuron_before(genome, id, some);
}

proof fn lemma_first_neuron_before(genome: GenomeView, id: i32, upper: int)
    requires
        0 <= upper < genome.neurons.len(),
        genome.neurons[upper].id == id,
    ensures
        exists|i: int| genome.first_neuron_at(id, i),
    decreases upper,
{
    if exists|j: int| 0 <= j < upper && (#[trigger] genome.neurons[j]).id == id {
        let j = choose|j: int| 0 <= j < upper && (#[trigger] genome.neurons[j]).id == id;
        lemma_first_neuron_before(genome, id, j);
    } else {
        assert(genome.first_neuron_at(id, upper));
    }
}

/// Where a link has the id, a first one has it.
pub proof fn lemma_first_link_exists(genome: GenomeView, id: LinkID)
    requires
        genome.has_link(id),
    ensures
        exists|i: int| genome.first_link_at(id, i),
{
    let some = choose|i: int| 0 <= i < genome.links.len() && (#[trigger] genome.links[i]).id == id;
    lemma_first_link_before(genome, id, some);
}

proof fn lemma_first_link_before(genome: GenomeView, id: LinkID, upper: int)
    requires
        0 <= upper < genome.links.len(),
        genome.links[upper].id == id,
    ensures
        exists|i: int| genome.first_link_at(id, i),
    decreases upper,
{
    if exists|j: int| 0 <= j < upper && (#[trigger] genome.links[j]).id == id {
        let j = choose|j: int| 0 <= j < upper && (#[trigger] genome.links[j]).id == id;
        lemma_first_link_before(genome, id, j);
    } else {
        assert(genome.first_link_at(id, upper));
    }
}


/// What is chosen from a sequence without repeated keys has no repeated
/// keys, and was in the sequence.
pub proof fn lemma_filter_keeps_distinct<A, K>(s: Seq<A>, pred: spec_fn(A) -> bool, key: spec_fn(A) -> K)
    requires
        forall|i: int, j: int| 0 <= i < j < s.len() ==> key(#[trigger] s[i]) != key(#[trigger] s[j]),
    ensures
        forall|i: int, j: int|
            0 <= i < j < s.filter(pred).len() ==> key(#[trigger] s.filter(pred)[i]) != key(
                #[trigger] s.filter(pred)[j],
            ),
        forall|i: int| 0 <= i < s.filter(pred).len() ==> s.contains(#[trigger] s.filter(pred)[i]) && pred(
            s.filter(pred)[i],
        ),
    decreases s.len(),
{
    let chosen = s.filter(pred);
    assert forall|i: int| 0 <= i < chosen.len() implies s.contains(#[trigger] chosen[i]) && pred(chosen[i]) by {
        assert(chosen.contains(chosen[i]));
        s.lemma_filter_contains_rev(pred, chosen[i]);
        s.lemma_filter_pred(pred, i);
    }
    if s.len() > 0 {
        let front = s.drop_last();
        let last = s.last();
        assert(s == front.push(last));
        front.lemma_filter_push(last, pred);
        lemma_filter_keeps_distinct(front, pred, key);
        assert forall|i: int, j: int| 0 <= i < j < chosen.len() implies key(#[trigger] chosen[i]) != key(
            #[trigger] chosen[j],
        ) by {
            let shorter = front.filter(pred);
            if j < shorter.len() {
                assert(chosen[i] == shorter[i] && chosen[j] == shorter[j]);
            } else {
                assert(chosen[j] == last);
                assert(chosen[i] == shorter[i]);
                assert(front.contains(shorter[i]));
                let at = choose|at: int| 0 <= at < front.len() && front[at] == shorter[i];
                assert(key(s[at]) != key(s[s.len() - 1]));
            }
        }
    }
}

} // verus!
