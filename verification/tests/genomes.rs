use neat::genome::{contains_id, Genome, GenomeIds, Individual, LinkGene, LinkID, NeuronGene};
use neat::population::sort_individuals_by_fitness;

fn bits(x: f32) -> u32 {
    x.to_bits()
}

#[test]
fn new_genome_is_fully_connected() {
    let mut ids = GenomeIds::new();
    let values = std::cell::Cell::new(0u32);
    let draw = || {
        values.set(values.get() + 1);
        values.get()
    };
    let genome = Genome::new(&mut ids, 3, 2, &draw);
    assert_eq!(genome.id, 1);
    assert_eq!(genome.num_inputs, 3);
    assert_eq!(genome.num_outputs, 2);
    let neuron_ids: Vec<i32> = genome.neurons.iter().map(|n| n.id).collect();
    assert_eq!(neuron_ids, vec![0, 1, -1, -2, -3]);
    let link_ids: Vec<(i32, i32)> = genome.links.iter().map(|l| (l.id.in_id, l.id.out_id)).collect();
    assert_eq!(link_ids, vec![(-1, 0), (-1, 1), (-2, 0), (-2, 1), (-3, 0), (-3, 1)]);
    assert!(genome.links.iter().all(|l| l.is_enabled));
    let mut drawn: Vec<u32> = genome.neurons.iter().map(|n| n.bias).collect();
    drawn.extend(genome.links.iter().map(|l| l.weight));
    drawn.sort();
    assert_eq!(drawn, (1..=11).collect::<Vec<u32>>());
}

#[test]
fn new_genome_without_inputs_or_outputs() {
    let mut ids = GenomeIds::new();
    let draw = || 7u32;
    let none = Genome::new(&mut ids, 0, 0, &draw);
    assert!(none.neurons.is_empty() && none.links.is_empty());
    let no_inputs = Genome::new(&mut ids, 0, 2, &draw);
    assert_eq!(no_inputs.neurons.len(), 2);
    assert!(no_inputs.links.is_empty());
    let negative = Genome::new(&mut ids, -3, -1, &draw);
    assert!(negative.neurons.is_empty() && negative.links.is_empty());
    assert_eq!(negative.num_inputs, -3);
    assert_eq!(negative.id, 3);
}

#[test]
fn input_and_output_ids_follow_the_arity() {
    let mut ids = GenomeIds::new();
    let draw = || 0u32;
    let genome = Genome::new(&mut ids, 4, 3, &draw);
    assert_eq!(genome.make_input_ids(), vec![-1, -2, -3, -4]);
    assert_eq!(genome.make_output_ids(), vec![0, 1, 2]);
    let empty = Genome::new(&mut ids, 0, -2, &draw);
    assert_eq!(empty.make_input_ids(), Vec::<i32>::new());
    assert_eq!(empty.make_output_ids(), Vec::<i32>::new());
}

#[test]
fn lookups_return_the_first_match_or_nothing() {
    let genome = Genome {
        id: 9,
        num_inputs: 1,
        num_outputs: 1,
        neurons: vec![
            NeuronGene { id: 0, bias: bits(1.0) },
            NeuronGene { id: -1, bias: bits(2.0) },
            NeuronGene { id: 0, bias: bits(3.0) },
        ],
        links: vec![
            LinkGene { id: LinkID { in_id: -1, out_id: 0 }, weight: bits(1.0), is_enabled: false },
            LinkGene { id: LinkID { in_id: -1, out_id: 0 }, weight: bits(2.0), is_enabled: true },
        ],
    };
    assert_eq!(genome.find_neuron(&0), Some(&NeuronGene { id: 0, bias: bits(1.0) }));
    assert_eq!(genome.find_neuron(&-1), Some(&NeuronGene { id: -1, bias: bits(2.0) }));
    assert_eq!(genome.find_neuron(&5), None);
    let id = LinkID { in_id: -1, out_id: 0 };
    assert_eq!(genome.find_link(&id), Some(&genome.links[0]));
    assert_eq!(genome.link_position(&id), Some(0));
    assert_eq!(genome.find_link(&LinkID { in_id: 0, out_id: -1 }), None);
    assert_eq!(genome.link_position(&LinkID { in_id: 0, out_id: -1 }), None);
}

#[test]
fn find_link_mut_changes_the_gene_in_place() {
    let mut ids = GenomeIds::new();
    let draw = || bits(0.5);
    let mut genome = Genome::new(&mut ids, 2, 1, &draw);
    let id = LinkID { in_id: -2, out_id: 0 };
    {
        let gene = genome.find_link_mut(&id).unwrap();
        gene.is_enabled = false;
        gene.weight = bits(4.0);
    }
    assert_eq!(genome.links[1], LinkGene { id, weight: bits(4.0), is_enabled: false });
    assert_eq!(genome.links[0].weight, bits(0.5));
    assert!(genome.find_link_mut(&LinkID { in_id: 0, out_id: 0 }).is_none());
}

#[test]
fn contains_id_looks_through_the_list() {
    let ids = vec![3, -1, 7];
    assert!(contains_id(&ids, 3));
    assert!(contains_id(&ids, 7));
    assert!(!contains_id(&ids, 0));
    assert!(!contains_id(&Vec::new(), 0));
}

#[test]
fn clones_are_equal_to_what_they_copy() {
    let mut ids = GenomeIds::new();
    let draw = || bits(0.5);
    let one = Individual { genome: Genome::new(&mut ids, 2, 2, &draw), fitness: bits(3.0) };
    let copy = one.clone();
    assert_eq!(copy, one);
    assert_eq!(copy.genome.clone(), one.genome);
}

fn tagged(tag: i32, fitness: f32) -> Individual {
    Individual {
        genome: Genome { id: tag, num_inputs: 0, num_outputs: 0, neurons: Vec::new(), links: Vec::new() },
        fitness: bits(fitness),
    }
}

#[test]
fn sort_keeps_the_order_of_equal_fitness() {
    let mut all = vec![
        tagged(1, 2.0),
        tagged(2, 5.0),
        tagged(3, 2.0),
        tagged(4, -0.0),
        tagged(5, 5.0),
        tagged(6, 0.0),
        tagged(7, 2.0),
        tagged(8, f32::INFINITY),
        tagged(9, f32::NEG_INFINITY),
    ];
    sort_individuals_by_fitness(&mut all);
    let order: Vec<i32> = all.iter().map(|i| i.genome.id).collect();
    assert_eq!(order, vec![8, 2, 5, 1, 3, 7, 4, 6, 9]);
}

#[test]
fn sort_agrees_with_the_order_of_the_numbers() {
    let values = [3.5f32, -1.0, 0.0, 1e-40, -1e-40, 1e30, -1e30, 2.0, 2.0, 0.25, -7.5, 100.0];
    let mut all: Vec<Individual> = values.iter().enumerate().map(|(i, v)| tagged(i as i32, *v)).collect();
    sort_individuals_by_fitness(&mut all);
    let mut expected: Vec<(i32, f32)> = values.iter().enumerate().map(|(i, v)| (i as i32, *v)).collect();
    expected.sort_by(|a, b| b.1.partial_cmp(&a.1).unwrap());
    let got: Vec<(i32, f32)> = all.iter().map(|i| (i.genome.id, f32::from_bits(i.fitness))).collect();
    assert_eq!(got, expected);
}

#[test]
fn sort_of_nothing_and_of_one() {
    let mut none: Vec<Individual> = Vec::new();
    sort_individuals_by_fitness(&mut none);
    assert!(none.is_empty());
    let mut one = vec![tagged(1, 1.0)];
    sort_individuals_by_fitness(&mut one);
    assert_eq!(one[0].genome.id, 1);
    let mut odd = vec![tagged(7, f32::NAN)];
    sort_individuals_by_fitness(&mut odd);
    assert_eq!(odd[0].genome.id, 7);
    assert!(f32::from_bits(odd[0].fitness).is_nan());
}
