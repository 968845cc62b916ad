use neat::crossover::{crossover, crossover_link, crossover_neuron, inherit_link, inherit_neuron};
use neat::genome::{Genome, GenomeIds, Individual, LinkGene, LinkID, NeuronGene};
use neat::mutation::split_link;
use neat::population::Population;

fn bits(x: f32) -> u32 {
    x.to_bits()
}

fn link(in_id: i32, out_id: i32, weight: f32, is_enabled: bool) -> LinkGene {
    LinkGene { id: LinkID { in_id, out_id }, weight: bits(weight), is_enabled }
}

fn individual(ids: &mut GenomeIds, value: f32, fitness: f32) -> Individual {
    let draw = || bits(value);
    Individual { genome: Genome::new(ids, 2, 2, &draw), fitness: bits(fitness) }
}

#[test]
fn genome_ids_count_up_from_one() {
    let mut ids = GenomeIds::new();
    assert_eq!(Genome::genome_indexer(&mut ids), 1);
    assert_eq!(Genome::genome_indexer(&mut ids), 2);
    assert_eq!(ids.last, 2);
    let a = individual(&mut ids, 0.0, 0.0);
    let b = individual(&mut ids, 0.0, 0.0);
    assert_eq!(a.genome.id, 3);
    assert_eq!(b.genome.id, 4);
}

#[test]
fn inherit_takes_each_value_from_the_parent_named() {
    let a = NeuronGene { id: 4, bias: bits(1.0) };
    let b = NeuronGene { id: 4, bias: bits(2.0) };
    assert_eq!(inherit_neuron(&a, &b, false), a);
    assert_eq!(inherit_neuron(&a, &b, true), b);
    let x = link(1, 2, 1.0, true);
    let y = link(1, 2, 5.0, false);
    assert_eq!(inherit_link(&x, &y, false, false), x);
    assert_eq!(inherit_link(&x, &y, true, false), link(1, 2, 5.0, true));
    assert_eq!(inherit_link(&x, &y, false, true), link(1, 2, 1.0, false));
    assert_eq!(inherit_link(&x, &y, true, true), y);
}

#[test]
fn crossed_genes_take_their_values_from_either_parent() {
    let a = NeuronGene { id: 4, bias: bits(1.0) };
    let b = NeuronGene { id: 4, bias: bits(2.0) };
    let x = link(1, 2, 1.0, true);
    let y = link(1, 2, 5.0, false);
    let mut biases = Vec::new();
    let mut links = Vec::new();
    for _ in 0..400 {
        let n = crossover_neuron(&a, &b);
        assert_eq!(n.id, 4);
        assert!(n.bias == a.bias || n.bias == b.bias);
        if !biases.contains(&n.bias) {
            biases.push(n.bias);
        }
        let l = crossover_link(&x, &y);
        assert_eq!(l.id, x.id);
        assert!(l.weight == x.weight || l.weight == y.weight);
        if !links.contains(&l) {
            links.push(l);
        }
    }
    assert_eq!(biases.len(), 2);
    assert_eq!(links.len(), 4);
}

#[test]
fn crossover_of_an_individual_with_itself_keeps_its_genes() {
    let mut ids = GenomeIds::new();
    let mut parent = individual(&mut ids, 0.25, 3.0);
    split_link(&mut parent.genome, 2, bits(0.5));
    parent.genome.links[1].is_enabled = false;
    let child = crossover(&parent, &parent, &mut ids);
    assert_eq!(child.id, 2);
    assert_eq!(child.num_inputs, 2);
    assert_eq!(child.num_outputs, 2);
    assert_eq!(child.neurons, parent.genome.neurons);
    assert_eq!(child.links, parent.genome.links);
}

#[test]
fn crossover_takes_the_structure_from_the_dominant_parent() {
    let mut ids = GenomeIds::new();
    let mut dominant = individual(&mut ids, 1.0, 3.0);
    let mut recessive = individual(&mut ids, 2.0, 1.0);
    split_link(&mut dominant.genome, 0, bits(7.0));
    split_link(&mut recessive.genome, 3, bits(9.0));
    recessive.genome.links[1].is_enabled = false;
    for _ in 0..100 {
        let child = crossover(&dominant, &recessive, &mut ids);
        assert_eq!(child.neurons.len(), dominant.genome.neurons.len());
        assert_eq!(child.links.len(), dominant.genome.links.len());
        for (c, d) in child.neurons.iter().zip(dominant.genome.neurons.iter()) {
            assert_eq!(c.id, d.id);
            let other = recessive.genome.find_neuron(&d.id).unwrap();
            assert!(c.bias == d.bias || c.bias == other.bias);
        }
        for (c, d) in child.links.iter().zip(dominant.genome.links.iter()) {
            assert_eq!(c.id, d.id);
            match recessive.genome.find_link(&d.id) {
                Some(other) => {
                    assert!(c.weight == d.weight || c.weight == other.weight);
                    assert!(c.is_enabled == d.is_enabled || c.is_enabled == other.is_enabled);
                }
                None => assert_eq!(c, d),
            }
        }
    }
    assert_eq!(ids.last, 102);
}

#[test]
fn crossover_reads_the_recessive_parent() {
    let mut ids = GenomeIds::new();
    let dominant = individual(&mut ids, 1.0, 3.0);
    let recessive = individual(&mut ids, 2.0, 1.0);
    let mut from_recessive = 0;
    for _ in 0..50 {
        let child = crossover(&dominant, &recessive, &mut ids);
        from_recessive += child.links.iter().filter(|l| l.weight == bits(2.0)).count();
        from_recessive += child.neurons.iter().filter(|n| n.bias == bits(2.0)).count();
    }
    assert!(from_recessive > 0);
}

#[test]
fn populate_makes_fresh_individuals() {
    let mut ids = GenomeIds::new();
    let mut population = Population::new();
    assert!(population.individuals.is_empty());
    assert!(population.best.is_none());
    let draw = || bits(0.5);
    population.populate(&mut ids, 5, 3, 2, &draw);
    assert_eq!(population.individuals.len(), 5);
    for (i, one) in population.individuals.iter().enumerate() {
        assert_eq!(one.fitness, bits(0.0));
        assert_eq!(one.genome.id, i as i32 + 1);
        assert_eq!(one.genome.num_inputs, 3);
        assert_eq!(one.genome.num_outputs, 2);
        let neuron_ids: Vec<i32> = one.genome.neurons.iter().map(|n| n.id).collect();
        assert_eq!(neuron_ids, vec![0, 1, -1, -2, -3]);
        let link_ids: Vec<(i32, i32)> = one.genome.links.iter().map(|l| (l.id.in_id, l.id.out_id)).collect();
        assert_eq!(link_ids, vec![(-1, 0), (-1, 1), (-2, 0), (-2, 1), (-3, 0), (-3, 1)]);
        assert!(one.genome.links.iter().all(|l| l.is_enabled && l.weight == bits(0.5)));
        assert!(one.genome.neurons.iter().all(|n| n.bias == bits(0.5)));
    }
    assert_eq!(ids.last, 5);
}

#[test]
fn reproduce_returns_a_full_generation_with_fitness_zero() {
    let mut ids = GenomeIds::new();
    let mut population = Population::new();
    let draw = || bits(0.5);
    population.populate(&mut ids, 10, 3, 3, &draw);
    for (i, one) in population.individuals.iter_mut().enumerate() {
        one.fitness = bits(10.0 - i as f32);
    }
    for survivors in [1usize, 2, 10] {
        for size in [0usize, 1, 7, 25] {
            let first = ids.last;
            let offspring = population.reproduce(&mut ids, survivors, size, &draw);
            assert_eq!(offspring.len(), size);
            for (i, child) in offspring.iter().enumerate() {
                assert_eq!(child.fitness, bits(0.0));
                assert_eq!(child.genome.id, first + 1 + i as i32);
                assert_eq!(child.genome.num_inputs, 3);
                assert_eq!(child.genome.num_outputs, 3);
            }
            assert_eq!(ids.last, first + size as i32);
        }
    }
    assert_eq!(population.individuals.len(), 10);
}

#[test]
fn rank_records_a_copy_of_the_fittest() {
    let mut ids = GenomeIds::new();
    let mut population = Population::new();
    population.individuals.push(individual(&mut ids, 0.0, 2.0));
    population.individuals.push(individual(&mut ids, 0.0, 8.0));
    population.individuals.push(individual(&mut ids, 0.0, 5.0));
    population.rank();
    let order: Vec<i32> = population.individuals.iter().map(|i| i.genome.id).collect();
    assert_eq!(order, vec![2, 3, 1]);
    let best = population.best.as_ref().unwrap();
    assert_eq!(best.genome.id, 2);
    assert_eq!(best.fitness, bits(8.0));
    assert_eq!(best.genome, population.individuals[0].genome);
}

#[test]
fn run_evaluates_ranks_and_breeds() {
    let mut ids = GenomeIds::new();
    let mut population = Population::new();
    let draw = || bits(0.5);
    population.populate(&mut ids, 6, 2, 2, &draw);
    let evaluate = |genome: &Genome| bits(genome.links.len() as f32 + (genome.id % 3) as f32);
    population.run(&evaluate, 4, &mut ids, 2, 8, &draw);
    assert_eq!(ids.last, 6 + 3 * 8);
    assert_eq!(population.individuals.len(), 8);
    for pair in population.individuals.windows(2) {
        assert!(f32::from_bits(pair[0].fitness) >= f32::from_bits(pair[1].fitness));
    }
    for one in &population.individuals {
        assert_eq!(one.fitness, evaluate(&one.genome));
        assert!(one.genome.id > 6 + 2 * 8);
    }
    let best = population.best.as_ref().unwrap();
    assert_eq!(best.fitness, population.individuals[0].fitness);
    assert_eq!(best.genome, population.individuals[0].genome);
}

#[test]
fn run_of_one_generation_keeps_the_individuals() {
    let mut ids = GenomeIds::new();
    let mut population = Population::new();
    let draw = || bits(0.5);
    population.populate(&mut ids, 3, 1, 1, &draw);
    let evaluate = |genome: &Genome| bits(genome.id as f32);
    population.run(&evaluate, 1, &mut ids, 1, 5, &draw);
    let order: Vec<i32> = population.individuals.iter().map(|i| i.genome.id).collect();
    assert_eq!(order, vec![3, 2, 1]);
    assert_eq!(population.best.as_ref().unwrap().genome.id, 3);
    assert_eq!(ids.last, 3);
}

#[test]
fn run_of_no_generation_changes_nothing() {
    let mut ids = GenomeIds::new();
    let mut population = Population::new();
    let draw = || bits(0.5);
    population.populate(&mut ids, 3, 1, 1, &draw);
    let evaluate = |genome: &Genome| bits(genome.id as f32);
    population.run(&evaluate, 0, &mut ids, 1, 5, &draw);
    let order: Vec<i32> = population.individuals.iter().map(|i| i.genome.id).collect();
    assert_eq!(order, vec![1, 2, 3]);
    assert!(population.best.is_none());
    assert!(population.individuals.iter().all(|i| i.fitness == bits(0.0)));
}

#[test]
fn run_with_one_individual_accepts_any_fitness() {
    let mut ids = GenomeIds::new();
    let mut population = Population::new();
    let draw = || bits(0.5);
    population.populate(&mut ids, 1, 1, 1, &draw);
    let evaluate = |_: &Genome| f32::NAN.to_bits();
    population.run(&evaluate, 3, &mut ids, 1, 1, &draw);
    assert_eq!(population.individuals.len(), 1);
    assert_eq!(population.individuals[0].genome.id, 3);
    assert!(f32::from_bits(population.best.as_ref().unwrap().fitness).is_nan());
}

#[test]
fn offspring_of_fresh_parents_stay_complete() {
    let mut ids = GenomeIds::new();
    let mut population = Population::new();
    let draw = || bits(0.5);
    population.populate(&mut ids, 4, 2, 2, &draw);
    let evaluate = |genome: &Genome| bits(genome.neurons.len() as f32);
    population.run(&evaluate, 12, &mut ids, 2, 6, &draw);
    for one in &population.individuals {
        let ids: Vec<i32> = one.genome.neurons.iter().map(|n| n.id).collect();
        assert!((-2..2).all(|id| ids.contains(&id)));
        assert!(one.genome.links.iter().all(|l| ids.contains(&l.id.in_id) && ids.contains(&l.id.out_id)));
        assert!(neat::nn::FeedForwardNeuralNetwork::create_from_genome(&one.genome).is_evaluable());
    }
}
