use neat::genome::{Genome, GenomeIds, LinkGene, LinkID, NeuronGene};
use neat::nn::FeedForwardNeuralNetwork;
use neat::mutation::{
    add_link_between, apply_mutation, candidates, choose_neuron, kind_at, mutate, mutate_add_link,
    mutate_add_neuron, mutate_remove_link, mutate_remove_neuron, remove_link_at, remove_neuron_with_id,
    split_link, would_create_cycle, MutationsType, Role,
};
use neat::scalar::ONE;

fn bits(x: f32) -> u32 {
    x.to_bits()
}

fn link(in_id: i32, out_id: i32, weight: f32, is_enabled: bool) -> LinkGene {
    LinkGene { id: LinkID { in_id, out_id }, weight: bits(weight), is_enabled }
}

fn fresh(num_in: i32, num_out: i32) -> Genome {
    let mut ids = GenomeIds::new();
    let draw = || bits(0.5);
    Genome::new(&mut ids, num_in, num_out, &draw)
}

fn reaches(links: &[LinkGene], from: i32, to: i32, enabled_only: bool) -> bool {
    let mut seen = vec![from];
    let mut next = 0;
    while next < seen.len() {
        let at = seen[next];
        next += 1;
        if at == to {
            return true;
        }
        for l in links {
            if l.id.in_id == at && (l.is_enabled || !enabled_only) && !seen.contains(&l.id.out_id) {
                seen.push(l.id.out_id);
            }
        }
    }
    false
}

fn has_cycle(links: &[LinkGene], enabled_only: bool) -> bool {
    links
        .iter()
        .any(|l| (l.is_enabled || !enabled_only) && reaches(links, l.id.out_id, l.id.in_id, enabled_only))
}

fn complete(genome: &Genome) -> bool {
    let neuron_ids: Vec<i32> = genome.neurons.iter().map(|n| n.id).collect();
    let ends = genome.links.iter().all(|l| neuron_ids.contains(&l.id.in_id) && neuron_ids.contains(&l.id.out_id));
    let arity = (-genome.num_inputs..genome.num_outputs).all(|id| neuron_ids.contains(&id));
    let no_stray = neuron_ids.iter().all(|id| *id >= -genome.num_inputs);
    genome.num_inputs >= 0 && genome.num_outputs >= 0 && ends && arity && no_stray
}

fn distinct_ids(genome: &Genome) -> bool {
    let mut neuron_ids: Vec<i32> = genome.neurons.iter().map(|n| n.id).collect();
    neuron_ids.sort();
    let mut link_ids: Vec<(i32, i32)> = genome.links.iter().map(|l| (l.id.in_id, l.id.out_id)).collect();
    link_ids.sort();
    neuron_ids.windows(2).all(|w| w[0] != w[1]) && link_ids.windows(2).all(|w| w[0] != w[1])
}

fn well_formed(genome: &Genome) -> bool {
    complete(genome) && distinct_ids(genome)
}

#[test]
fn would_create_cycle_follows_links_forward_from_the_target() {
    let links = vec![link(-1, 3, 1., true), link(3, 4, 1., false), link(4, 0, 1., true)];
    assert!(would_create_cycle(&links, 4, 3));
    assert!(would_create_cycle(&links, 0, 3));
    assert!(would_create_cycle(&links, 0, -1));
    assert!(!would_create_cycle(&links, 3, 0));
    assert!(!would_create_cycle(&links, -1, 4));
    assert!(!would_create_cycle(&links, 3, 7));
}

#[test]
fn would_create_cycle_refuses_a_link_to_itself() {
    let links: Vec<LinkGene> = Vec::new();
    assert!(would_create_cycle(&links, 5, 5));
}

#[test]
fn would_create_cycle_ends_on_a_graph_with_a_cycle() {
    let links = vec![link(1, 2, 1., true), link(2, 1, 1., true)];
    assert!(!would_create_cycle(&links, 9, 1));
    assert!(would_create_cycle(&links, 2, 1));
}

#[test]
fn add_link_between_appends_a_new_link() {
    let mut genome = fresh(2, 1);
    genome.neurons.push(NeuronGene { id: 3, bias: 0 });
    let before = genome.links.clone();
    assert_eq!(add_link_between(&mut genome, -1, 3, bits(7.0)), Some(()));
    assert_eq!(genome.links.len(), before.len() + 1);
    assert_eq!(&genome.links[..before.len()], &before[..]);
    assert_eq!(genome.links[before.len()], link(-1, 3, 7.0, true));
}

#[test]
fn add_link_between_switches_an_existing_link_on_and_reports_no_change() {
    let mut genome = fresh(2, 1);
    genome.links[1].is_enabled = false;
    let weight = genome.links[1].weight;
    assert_eq!(add_link_between(&mut genome, -2, 0, bits(9.0)), None);
    assert_eq!(genome.links.len(), 2);
    assert!(genome.links[1].is_enabled);
    assert_eq!(genome.links[1].weight, weight);
}

#[test]
fn add_link_between_refuses_a_cycle_even_over_disabled_links() {
    let mut genome = fresh(1, 1);
    genome.neurons.push(NeuronGene { id: 2, bias: 0 });
    genome.neurons.push(NeuronGene { id: 3, bias: 0 });
    genome.links.push(link(2, 3, 1., false));
    let before = genome.links.clone();
    assert_eq!(add_link_between(&mut genome, 3, 2, bits(1.0)), None);
    assert_eq!(genome.links, before);
    assert_eq!(add_link_between(&mut genome, 2, 2, bits(1.0)), None);
    assert_eq!(genome.links, before);
}

#[test]
fn applied_add_link_mutations_keep_the_enabled_links_acyclic() {
    let mut genome = fresh(3, 3);
    for round in 0..300 {
        if round % 3 == 0 {
            mutate_add_neuron(&mut genome, bits(0.1));
        }
        let before = genome.links.len();
        let applied = mutate_add_link(&mut genome, bits(1.5));
        if applied.is_some() {
            assert_eq!(genome.links.len(), before + 1);
            assert_eq!(genome.links[before].weight, bits(1.5));
            assert!(genome.links[before].is_enabled);
        } else {
            assert_eq!(genome.links.len(), before);
        }
        assert!(!has_cycle(&genome.links, true));
        assert!(!has_cycle(&genome.links, false));
        assert!(well_formed(&genome));
    }
}

#[test]
fn mutate_add_link_does_nothing_without_a_source() {
    let mut genome = fresh(0, 2);
    assert_eq!(mutate_add_link(&mut genome, bits(1.0)), None);
    assert!(genome.links.is_empty());
    assert_eq!(genome.neurons.len(), 2);
}

#[test]
fn remove_link_at_takes_one_link_out() {
    let mut genome = fresh(2, 2);
    let before = genome.links.clone();
    remove_link_at(&mut genome, 1);
    assert_eq!(genome.links, vec![before[0], before[2], before[3]]);
}

#[test]
fn mutate_remove_link_passes_over_the_first_links() {
    for _ in 0..50 {
        let mut genome = fresh(2, 2);
        let before = genome.links.clone();
        assert_eq!(mutate_remove_link(&mut genome), Some(()));
        assert_eq!(genome.links.len(), 3);
        assert_eq!(&genome.links[..2], &before[..2]);
    }
}

#[test]
fn mutate_remove_link_does_nothing_when_no_link_is_past_the_outputs() {
    let mut genome = fresh(1, 2);
    let before = genome.links.clone();
    assert_eq!(mutate_remove_link(&mut genome), None);
    assert_eq!(genome.links, before);
    let mut empty = fresh(0, 0);
    assert_eq!(mutate_remove_link(&mut empty), None);
}

#[test]
fn split_link_adds_one_neuron_and_two_links() {
    let mut genome = fresh(2, 1);
    genome.links[1].is_enabled = false;
    genome.links[1].weight = bits(-2.5);
    assert_eq!(split_link(&mut genome, 1, bits(0.75)), Some(()));
    assert_eq!(genome.neurons.len(), 4);
    assert_eq!(genome.neurons[3], NeuronGene { id: 3, bias: bits(0.75) });
    assert_eq!(genome.links.len(), 4);
    assert_eq!(genome.links[1], link(-2, 0, -2.5, true));
    assert_eq!(genome.links[2], LinkGene { id: LinkID { in_id: -2, out_id: 3 }, weight: ONE, is_enabled: true });
    assert_eq!(genome.links[2].weight, bits(1.0));
    assert_eq!(genome.links[3], link(3, 0, -2.5, true));
}

#[test]
fn mutate_add_neuron_grows_the_genome_by_one_neuron_and_two_links() {
    let mut genome = fresh(3, 3);
    for step in 0..40 {
        let neurons = genome.neurons.len();
        let links = genome.links.len();
        assert_eq!(mutate_add_neuron(&mut genome, bits(0.5)), Some(()));
        assert_eq!(genome.neurons.len(), neurons + 1);
        assert_eq!(genome.links.len(), links + 2);
        assert_eq!(genome.num_inputs, 3);
        assert_eq!(genome.num_outputs, 3);
        assert_eq!(genome.neurons[neurons].id, 6 + step);
        assert!(well_formed(&genome));
        assert!(!has_cycle(&genome.links, false));
    }
}

#[test]
fn mutate_add_neuron_does_nothing_without_links() {
    let mut genome = fresh(0, 2);
    assert_eq!(mutate_add_neuron(&mut genome, bits(0.5)), None);
    assert_eq!(genome.neurons.len(), 2);
    assert!(genome.links.is_empty());
}

#[test]
fn a_new_neuron_gets_the_number_of_neurons_as_its_id() {
    let mut genome = fresh(3, 3);
    assert_eq!(split_link(&mut genome, 0, 0), Some(()));
    assert_eq!(split_link(&mut genome, 0, 0), Some(()));
    let ids: Vec<i32> = genome.neurons.iter().map(|n| n.id).collect();
    assert_eq!(ids, vec![0, 1, 2, -1, -2, -3, 6, 7]);
    assert!(well_formed(&genome));
}

#[test]
fn after_a_removal_the_new_id_can_be_one_in_use() {
    let mut genome = fresh(3, 3);
    split_link(&mut genome, 0, 0);
    split_link(&mut genome, 0, 0);
    remove_neuron_with_id(&mut genome, 6);
    assert_eq!(genome.neurons.len(), 7);
    let links = genome.links.len();
    assert_eq!(split_link(&mut genome, 1, bits(0.5)), Some(()));
    let ids: Vec<i32> = genome.neurons.iter().map(|n| n.id).collect();
    assert_eq!(ids, vec![0, 1, 2, -1, -2, -3, 7, 7]);
    assert_eq!(genome.links.len(), links + 2);
    assert_eq!(genome.links[links], link(-1, 7, 1.0, true));
    assert_eq!(genome.links[links + 1], link(7, 1, 0.5, true));
    assert!(complete(&genome));
    assert!(!distinct_ids(&genome));
}

#[test]
fn a_genome_of_three_neurons_gets_a_neuron_of_id_three() {
    let mut genome = Genome {
        id: 1,
        num_inputs: 1,
        num_outputs: 1,
        neurons: vec![
            NeuronGene { id: 0, bias: 0 },
            NeuronGene { id: -1, bias: 0 },
            NeuronGene { id: 3, bias: bits(2.0) },
        ],
        links: vec![link(-1, 0, 4.0, false)],
    };
    assert_eq!(mutate_add_neuron(&mut genome, bits(0.25)), Some(()));
    assert_eq!(genome.neurons.len(), 4);
    assert_eq!(genome.neurons[3], NeuronGene { id: 3, bias: bits(0.25) });
    assert_eq!(genome.neurons[2], NeuronGene { id: 3, bias: bits(2.0) });
    assert_eq!(genome.links, vec![link(-1, 0, 4.0, true), link(-1, 3, 1.0, true), link(3, 0, 4.0, true)]);
}

#[test]
fn remove_neuron_with_id_takes_its_links_along() {
    let mut genome = fresh(2, 1);
    split_link(&mut genome, 0, bits(0.5));
    split_link(&mut genome, 1, bits(0.5));
    assert_eq!(genome.links.len(), 6);
    remove_neuron_with_id(&mut genome, 3);
    let ids: Vec<i32> = genome.neurons.iter().map(|n| n.id).collect();
    assert_eq!(ids, vec![0, -1, -2, 4]);
    assert_eq!(
        genome.links,
        vec![link(-1, 0, 0.5, true), link(-2, 0, 0.5, true), link(-2, 4, 1.0, true), link(4, 0, 0.5, true)]
    );
}

#[test]
fn mutate_remove_neuron_removes_hidden_neurons_only() {
    let mut genome = fresh(2, 2);
    assert_eq!(mutate_remove_neuron(&mut genome), None);
    assert_eq!(genome.neurons.len(), 4);
    split_link(&mut genome, 0, 0);
    split_link(&mut genome, 3, 0);
    assert_eq!(mutate_remove_neuron(&mut genome), Some(()));
    assert_eq!(mutate_remove_neuron(&mut genome), Some(()));
    assert_eq!(mutate_remove_neuron(&mut genome), None);
    let ids: Vec<i32> = genome.neurons.iter().map(|n| n.id).collect();
    assert_eq!(ids, vec![0, 1, -1, -2]);
    assert!(genome.links.iter().all(|l| l.id.in_id < 0 && l.id.out_id < 2));
    assert!(well_formed(&genome));
}

#[test]
fn candidates_list_the_neurons_for_each_part() {
    let mut genome = fresh(2, 2);
    split_link(&mut genome, 0, 0);
    assert_eq!(candidates(&genome, Role::Source), vec![-1, -2, 4]);
    assert_eq!(candidates(&genome, Role::Target), vec![0, 1, 4]);
    assert_eq!(candidates(&genome, Role::Hidden), vec![4]);
}

#[test]
fn choose_neuron_picks_among_the_candidates() {
    let mut genome = fresh(2, 2);
    split_link(&mut genome, 0, 0);
    let mut seen = Vec::new();
    for _ in 0..200 {
        let id = choose_neuron(&genome, Role::Source).unwrap();
        assert!(id == -1 || id == -2 || id == 4);
        if !seen.contains(&id) {
            seen.push(id);
        }
        assert_eq!(choose_neuron(&genome, Role::Hidden), Some(4));
    }
    assert_eq!(seen.len(), 3);
    assert_eq!(choose_neuron(&fresh(1, 1), Role::Hidden), None);
}

#[test]
fn kinds_stand_in_a_fixed_order() {
    assert_eq!(kind_at(0), MutationsType::AddLink);
    assert_eq!(kind_at(1), MutationsType::AddNeuron);
    assert_eq!(kind_at(2), MutationsType::RemoveLink);
    assert_eq!(kind_at(3), MutationsType::RemoveNeuron);
}

#[test]
fn apply_mutation_dispatches_on_the_kind() {
    let mut genome = fresh(2, 2);
    assert_eq!(apply_mutation(&mut genome, MutationsType::AddNeuron, bits(0.5)), Some(()));
    assert_eq!(genome.neurons.len(), 5);
    assert_eq!(genome.links.len(), 6);
    assert_eq!(apply_mutation(&mut genome, MutationsType::RemoveNeuron, 0), Some(()));
    assert_eq!(genome.neurons.len(), 4);
    assert_eq!(genome.links.len(), 4);
    assert_eq!(apply_mutation(&mut genome, MutationsType::AddLink, bits(2.0)), None);
    assert_eq!(genome.links.len(), 4);
    assert_eq!(apply_mutation(&mut genome, MutationsType::RemoveLink, 0), Some(()));
    assert_eq!(genome.links.len(), 3);
}

#[test]
fn any_run_of_mutations_keeps_the_genome_complete() {
    let mut genome = fresh(3, 3);
    let mut applied = 0;
    for _ in 0..500 {
        let id = genome.id;
        if mutate(&mut genome, bits(0.5)).is_some() {
            applied += 1;
        }
        assert_eq!(genome.id, id);
        assert_eq!(genome.num_inputs, 3);
        assert_eq!(genome.num_outputs, 3);
        assert!(complete(&genome));
        assert!(FeedForwardNeuralNetwork::create_from_genome(&genome).is_evaluable());
    }
    assert!(applied > 0);
}

#[test]
fn mutations_that_remove_no_neuron_keep_the_genome_sound() {
    let mut genome = fresh(3, 3);
    for round in 0..300 {
        let kind = [MutationsType::AddLink, MutationsType::AddNeuron, MutationsType::RemoveLink][round % 3];
        apply_mutation(&mut genome, kind, bits(0.5));
        assert!(well_formed(&genome));
        assert!(!has_cycle(&genome.links, false));
        assert!(!has_cycle(&genome.links, true));
    }
}
