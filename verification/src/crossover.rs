//! Crossover: an offspring takes its structure from the dominant parent and,
//! gene by gene, its values from either parent.

use vstd::prelude::*;
use crate::genome::{
    lemma_first_link_exists, lemma_first_neuron_exists, Genome, GenomeIds, GenomeView, Individual, LinkGene,
    NeuronGene,
};
use crate::graph::{acyclic, lemma_same_ids_subgraph, lemma_subgraph_acyclic};
use crate::random::random_index;

verus! {

/// The neuron gene that inherits its bias from the second parent, or from
/// the first.
pub fn inherit_neuron(a: &NeuronGene, b: &NeuronGene, from_second: bool) -> (r: NeuronGene)
    ensures
        r == (NeuronGene { id: a.id, bias: if from_second { b.bias } else { a.bias } }),
{
    NeuronGene { id: a.id, bias: if from_second { b.bias } else { a.bias } }
}

/// Crosses two genes of the same neuron: the bias is that of either parent,
/// each with the same chance.
pub fn crossover_neuron(a: &NeuronGene, b: &NeuronGene) -> (r: NeuronGene)
    requires
        a.id == b.id,
    ensures
        r.id == a.id,
        r.bias == a.bias || r.bias == b.bias,
{
    inherit_neuron(a, b, random_index(2) == 1)
}

/// The link gene that inherits its weight and its switch, each from the
/// second parent or from the first.
pub fn inherit_link(a: &LinkGene, b: &LinkGene, weight_from_second: bool, switch_from_second: bool) -> (r:
    LinkGene)
    ensures
        r == (LinkGene {
            id: a.id,
            weight: if weight_from_second { b.weight } else { a.weight },
            is_enabled: if switch_from_second { b.is_enabled } else { a.is_enabled },
        }),
{
    LinkGene {
        id: a.id,
        weight: if weight_from_second { b.weight } else { a.weight },
        is_enabled: if switch_from_second { b.is_enabled } else { a.is_enabled },
    }
}

/// Crosses two genes of the same link: the weight is that of either parent,
/// and so is the switch, each with the same chance and one apart from the
/// other.
pub fn crossover_link(a: &LinkGene, b: &LinkGene) -> (r: LinkGene)
    requires
        a.id == b.id,
    ensures
        r.id == a.id,
        r.weight == a.weight || r.weight == b.weight,
        r.is_enabled == a.is_enabled || r.is_enabled == b.is_enabled,
{
    let weight_from_second = random_index(2) == 1;
    let switch_from_second = random_index(2) == 1;
    inherit_link(a, b, weight_from_second, switch_from_second)
}

/// Whether `child` can be the neuron gene that comes of `gene` of the
/// dominant parent: the same id, and the bias of `gene` or of the recessive
/// parent's gene with that id.
pub open spec fn neuron_inherited(recessive: GenomeView, gene: NeuronGene, child: NeuronGene) -> bool {
    &&& child.id == gene.id
    &&& child.bias == gene.bias || (recessive.has_neuron(gene.id) && child.bias == recessive.neuron_with(
        gene.id,
    ).unwrap().bias)
}

/// Whether `child` can be the link gene that comes of `gene` of the dominant
/// parent: the same id, and weight and switch each of `gene` or of the
/// recessive parent's gene with that id.
pub open spec fn link_inherited(recessive: GenomeView, gene: LinkGene, child: LinkGene) -> bool {
    let other = recessive.link_with(gene.id).unwrap();
    &&& child.id == gene.id
    &&& child.weight == gene.weight || (recessive.has_link(gene.id) && child.weight == other.weight)
    &&& child.is_enabled == gene.is_enabled || (recessive.has_link(gene.id) && child.is_enabled
        == other.is_enabled)
}

/// Whether `child` can be the offspring of the two parents: it has the
/// dominant parent's arity, and gene by gene the dominant parent's neurons
/// and links, with values of either parent where both have the gene.
pub open spec fn crossed(dominant: GenomeView, recessive: GenomeView, child: GenomeView) -> bool {
    &&& child.num_inputs == dominant.num_inputs
    &&& child.num_outputs == dominant.num_outputs
    &&& child.neurons.len() == dominant.neurons.len()
    &&& forall|i: int|
        0 <= i < child.neurons.len() ==> neuron_inherited(recessive, dominant.neurons[i], #[trigger] child.neurons[i])
    &&& child.links.len() == dominant.links.len()
    &&& forall|i: int|
        0 <= i < child.links.len() ==> link_inherited(recessive, dominant.links[i], #[trigger] child.links[i])
}

/// An offspring has the ids of its dominant parent's genes, in their order.
/// So it is complete if that parent is, has distinct ids if that parent has,
/// is free of cycles if that parent is, and has its next id free if that
/// parent has.
pub proof fn lemma_crossed_keeps_structure(dominant: GenomeView, recessive: GenomeView, child: GenomeView)
    requires
        crossed(dominant, recessive, child),
    ensures
        child.neurons.map_values(|n: NeuronGene| n.id) == dominant.neurons.map_values(|n: NeuronGene| n.id),
        child.links.map_values(|l: LinkGene| l.id) == dominant.links.map_values(|l: LinkGene| l.id),
        dominant.complete() ==> child.complete(),
        dominant.distinct_ids() ==> child.distinct_ids(),
        dominant.next_id_free() ==> child.next_id_free(),
        acyclic(dominant.links) ==> acyclic(child.links),
{
    assert(child.neurons.map_values(|n: NeuronGene| n.id) =~= dominant.neurons.map_values(
        |n: NeuronGene| n.id,
    ));
    assert(child.links.map_values(|l: LinkGene| l.id) =~= dominant.links.map_values(|l: LinkGene| l.id));
    assert forall|k: int| 0 <= k < child.links.len() implies (#[trigger] child.links[k]).id
        == dominant.links[k].id by {}
    lemma_same_ids_subgraph(child.links, dominant.links);
    if acyclic(dominant.links) {
        lemma_subgraph_acyclic(child.links, dominant.links);
    }
    assert forall|x: i32| dominant.has_neuron(x) == child.has_neuron(x) by {
        if dominant.has_neuron(x) {
            let i = choose|i: int| 0 <= i < dominant.neurons.len() && (#[trigger] dominant.neurons[i]).id == x;
            assert(child.neurons[i].id == x);
        }
        if child.has_neuron(x) {
            let i = choose|i: int| 0 <= i < child.neurons.len() && (#[trigger] child.neurons[i]).id == x;
            assert(dominant.neurons[i].id == x);
        }
    }
    if dominant.complete() {
        assert forall|k: int| 0 <= k < child.links.len() implies child.has_neuron(
            (#[trigger] child.links[k]).id.in_id,
        ) && child.has_neuron(child.links[k].id.out_id) by {
            assert(dominant.has_neuron(dominant.links[k].id.in_id));
            assert(dominant.has_neuron(dominant.links[k].id.out_id));
        }
        assert forall|x: i32| child.is_input(x) || child.is_output(x) implies #[trigger] child.has_neuron(x) by {
            assert(dominant.has_neuron(x));
        }
        assert forall|i: int| 0 <= i < child.neurons.len() implies (#[trigger] child.neurons[i]).id
            >= -child.num_inputs by {
            assert(dominant.neurons[i].id >= -dominant.num_inputs);
        }
    }
    if dominant.distinct_ids() {
        assert forall|a: int, b: int| 0 <= a < b < child.neurons.len() implies (#[trigger] child.neurons[a]).id != (
        #[trigger] child.neurons[b]).id by {
            assert(dominant.neurons[a].id != dominant.neurons[b].id);
        }
        assert forall|a: int, b: int| 0 <= a < b < child.links.len() implies (#[trigger] child.links[a]).id != (
        #[trigger] child.links[b]).id by {
            assert(dominant.links[a].id != dominant.links[b].id);
        }
    }
}

/// The offspring of a genome with itself has that genome's neurons and
/// links, if no id occurs twice in the genome.
pub proof fn lemma_crossed_with_itself(parent: GenomeView, child: GenomeView)
    requires
        parent.distinct_ids(),
        crossed(parent, parent, child),
    ensures
        child.neurons == parent.neurons,
        child.links == parent.links,
{
    assert forall|i: int| 0 <= i < parent.neurons.len() implies child.neurons[i] == parent.neurons[i] by {
        let gene = parent.neurons[i];
        assert(neuron_inherited(parent, gene, child.neurons[i]));
        assert(parent.has_neuron(gene.id));
        let at = choose|at: int| parent.first_neuron_at(gene.id, at);
        lemma_first_neuron_exists(parent, gene.id);
        if at < i {
            assert(parent.neurons[at].id != parent.neurons[i].id);
        }
        if i < at {
            assert(parent.neurons[i].id != parent.neurons[at].id);
        }
    }
    assert(child.neurons =~= parent.neurons);
    assert forall|i: int| 0 <= i < parent.links.len() implies child.links[i] == parent.links[i] by {
        let gene = parent.links[i];
        assert(link_inherited(parent, gene, child.links[i]));
        assert(parent.has_link(gene.id));
        let at = choose|at: int| parent.first_link_at(gene.id, at);
        lemma_first_link_exists(parent, gene.id);
        if at < i {
            assert(parent.links[at].id != parent.links[i].id);
        }
        if i < at {
            assert(parent.links[i].id != parent.links[at].id);
        }
    }
    assert(child.links =~= parent.links);
}

/// Breeds an offspring. It gets a new id and the dominant parent's arity,
/// neurons and links. Where the recessive parent has a gene with the same
/// id (the match of a link is looked up among the recessive parent's links),
/// the bias, the weight and the switch are each taken from either parent,
/// with the same chance; elsewhere the dominant parent's gene is copied.
pub fn crossover(dominant: &Individual, recessive: &Individual, ids: &mut GenomeIds) -> (child: Genome)
    requires
        old(ids).last < i32::MAX,
    ensures
        child.id == old(ids).last + 1,
        final(ids).last == child.id,
        crossed(dominant.genome@, recessive.genome@, child@),
        dominant.genome@.complete() ==> child@.complete(),
        dominant.genome@.distinct_ids() ==> child@.distinct_ids(),
        dominant.genome@.next_id_free() ==> child@.next_id_free(),
        acyclic(dominant.genome@.links) ==> acyclic(child@.links),
{
    let id = Genome::genome_indexer(ids);
    let mut neurons: Vec<NeuronGene> = Vec::new();
    let mut i: usize = 0;
    while i < dominant.genome.neurons.len()
        invariant
            i <= dominant.genome.neurons.len(),
            neurons.len() == i,
            forall|k: int|
                0 <= k < i ==> neuron_inherited(recessive.genome@, dominant.genome@.neurons[k], #[trigger] neurons[k]),
        decreases dominant.genome.neurons.len() - i,
    {
        let gene = dominant.genome.neurons[i];
        let inherited = match recessive.genome.find_neuron(&gene.id) {
            Some(other) => crossover_neuron(&gene, other),
            None => gene,
        };
        neurons.push(inherited);
        i += 1;
    }
    let mut links: Vec<LinkGene> = Vec::new();
    let mut j: usize = 0;
    while j < dominant.genome.links.len()
        invariant
            j <= dominant.genome.links.len(),
            links.len() == j,
            forall|k: int|
                0 <= k < j ==> link_inherited(recessive.genome@, dominant.genome@.links[k], #[trigger] links[k]),
        decreases dominant.genome.links.len() - j,
    {
        let gene = dominant.genome.links[j];
        let inherited = match recessive.genome.find_link(&gene.id) {
            Some(other) => crossover_link(&gene, other),
            None => gene,
        };
        links.push(inherited);
        j += 1;
    }
    let child = Genome {
        id,
        num_inputs: dominant.genome.num_inputs,
        num_outputs: dominant.genome.num_outputs,
        neurons,
        links,
    };
    proof {
        lemma_crossed_keeps_structure(dominant.genome@, recessive.genome@, child@);
    }
    child
}

} // verus!
