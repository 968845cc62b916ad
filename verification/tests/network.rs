use neat::genome::{Genome, GenomeIds, LinkGene, LinkID, NeuronGene};
use neat::nn::{feed_forward_layers, required_for_output, FeedForwardNeuralNetwork, Neuron, NeuronInput};

fn bits(x: f32) -> u32 {
    x.to_bits()
}

fn accumulate(sum: u32, value: u32, weight: u32) -> u32 {
    (f32::from_bits(sum) + f32::from_bits(value) * f32::from_bits(weight)).to_bits()
}

fn add_bias(sum: u32, bias: u32) -> u32 {
    (f32::from_bits(sum) + f32::from_bits(bias)).to_bits()
}

fn rectify(raw: u32) -> u32 {
    f32::from_bits(raw).max(0.0).to_bits()
}

fn activate(net: &FeedForwardNeuralNetwork, inputs: Vec<f32>) -> Vec<f32> {
    assert!(inputs.len() == net.input_ids.len());
    assert!(net.is_evaluable());
    let encoded: Vec<u32> = inputs.iter().map(|x| x.to_bits()).collect();
    net.activate(&encoded, &accumulate, &add_bias, &rectify).iter().map(|b| f32::from_bits(*b)).collect()
}

fn link(in_id: i32, out_id: i32, weight: f32, is_enabled: bool) -> LinkGene {
    LinkGene { id: LinkID { in_id, out_id }, weight: bits(weight), is_enabled }
}

fn three_by_three_neurons() -> Vec<Neuron> {
    vec![
        Neuron {
            id: 0,
            bias: bits(0.),
            inputs: vec![
                NeuronInput { input_id: -1, weight: bits(1.) },
                NeuronInput { input_id: -2, weight: bits(2.) },
                NeuronInput { input_id: -3, weight: bits(3.) },
            ],
        },
        Neuron {
            id: 1,
            bias: bits(1.),
            inputs: vec![
                NeuronInput { input_id: -1, weight: bits(1.) },
                NeuronInput { input_id: -2, weight: bits(2.) },
                NeuronInput { input_id: -3, weight: bits(3.) },
            ],
        },
        Neuron {
            id: 2,
            bias: bits(2.),
            inputs: vec![
                NeuronInput { input_id: -1, weight: bits(1.) },
                NeuronInput { input_id: -2, weight: bits(2.) },
                NeuronInput { input_id: -3, weight: bits(3.) },
            ],
        },
    ]
}

#[test]
fn simple_nn_activation_test() {
    let neurons = three_by_three_neurons();
    let nn = FeedForwardNeuralNetwork { input_ids: vec![-1, -2, -3], output_ids: vec![0, 1, 2], neurons };

    let output = activate(&nn, vec![1., 2., 3.]);

    assert_eq!(output[0], 14.0);
    assert_eq!(output[1], 15.0);
    assert_eq!(output[2], 16.0);
}

#[test]
fn create_from_genome_test() {
    let neurons = three_by_three_neurons();
    let mut expected_nn =
        FeedForwardNeuralNetwork { input_ids: vec![-1, -2, -3], output_ids: vec![0, 1, 2], neurons };

    let genome = Genome {
        id: 1,
        num_inputs: 3,
        num_outputs: 3,
        neurons: vec![
            NeuronGene { id: -1, bias: bits(-1.) },
            NeuronGene { id: -2, bias: bits(-2.) },
            NeuronGene { id: -3, bias: bits(-3.) },
            NeuronGene { id: 0, bias: bits(0.) },
            NeuronGene { id: 1, bias: bits(1.) },
            NeuronGene { id: 2, bias: bits(2.) },
        ],
        links: vec![
            link(-1, 0, 1., true),
            link(-1, 1, 1., true),
            link(-1, 2, 1., true),
            link(-2, 0, 2., true),
            link(-2, 1, 2., true),
            link(-2, 2, 2., true),
            link(-3, 0, 3., true),
            link(-3, 1, 3., true),
            link(-3, 2, 3., true),
        ],
    };

    let mut nn_from_genome = FeedForwardNeuralNetwork::create_from_genome(&genome);

    expected_nn.neurons.sort_by_key(|n| n.id);
    nn_from_genome.neurons.sort_by_key(|n| n.id);

    assert_eq!(expected_nn, nn_from_genome);
}

#[test]
fn plan_of_a_genome_lists_outputs_in_ascending_order() {
    let genome = Genome {
        id: 1,
        num_inputs: 1,
        num_outputs: 3,
        neurons: vec![
            NeuronGene { id: 2, bias: bits(2.) },
            NeuronGene { id: 0, bias: bits(0.) },
            NeuronGene { id: 1, bias: bits(1.) },
            NeuronGene { id: -1, bias: bits(0.) },
        ],
        links: vec![link(-1, 2, 1., true), link(-1, 0, 1., true), link(-1, 1, 1., true)],
    };
    let net = FeedForwardNeuralNetwork::create_from_genome(&genome);
    let ids: Vec<i32> = net.neurons.iter().map(|n| n.id).collect();
    assert_eq!(ids, vec![0, 1, 2]);
    assert_eq!(net.input_ids, vec![-1]);
    assert_eq!(net.output_ids, vec![0, 1, 2]);
}

#[test]
fn end_to_end_fresh_genome_gives_three_finite_outputs() {
    let mut ids = GenomeIds::new();
    let draw = || bits(0.25);
    let genome = Genome::new(&mut ids, 3, 3, &draw);
    let net = FeedForwardNeuralNetwork::create_from_genome(&genome);
    assert!(net.is_evaluable());
    let output = activate(&net, vec![0.5, 0.5, 0.5]);
    assert_eq!(output.len(), 3);
    for value in &output {
        assert!(value.is_finite());
    }
    assert_eq!(output, vec![0.625, 0.625, 0.625]);
}

#[test]
fn required_for_output_is_the_backward_closure() {
    let inputs = vec![-1, -2];
    let outputs = vec![0];
    let links = vec![
        link(-1, 3, 1., true),
        link(3, 0, 1., true),
        link(-2, 4, 1., true),
        link(4, 5, 1., true),
        link(6, 3, 1., true),
    ];
    let required = required_for_output(&inputs, &outputs, &links);
    let mut found: Vec<i32> = required.iter().copied().collect();
    found.sort();
    assert_eq!(found, vec![0, 3, 6]);
}

#[test]
fn required_for_output_does_not_walk_through_inputs() {
    let inputs = vec![-1];
    let outputs = vec![0];
    let links = vec![link(-1, 0, 1., true), link(7, -1, 1., true)];
    let required = required_for_output(&inputs, &outputs, &links);
    let mut found: Vec<i32> = required.iter().copied().collect();
    found.sort();
    assert_eq!(found, vec![0]);
}

#[test]
fn layers_follow_the_depth_of_the_graph() {
    let inputs = vec![-1, -2];
    let outputs = vec![0, 1];
    let links = vec![
        link(-1, 3, 1., true),
        link(-2, 3, 1., true),
        link(3, 4, 1., true),
        link(-1, 4, 1., true),
        link(4, 0, 1., true),
        link(3, 1, 1., true),
        link(-2, 9, 1., true),
    ];
    let layers = feed_forward_layers(&inputs, &outputs, &links);
    assert_eq!(layers, vec![vec![3], vec![1, 4], vec![0]]);
}

#[test]
fn layers_are_the_same_on_every_call() {
    let inputs = vec![-1, -2, -3];
    let outputs = vec![0, 1];
    let links = vec![
        link(-1, 5, 1., true),
        link(-2, 4, 1., true),
        link(-3, 3, 1., true),
        link(5, 0, 1., true),
        link(4, 0, 1., true),
        link(3, 1, 1., true),
    ];
    let first = feed_forward_layers(&inputs, &outputs, &links);
    assert_eq!(first, vec![vec![3, 4, 5], vec![0, 1]]);
    for _ in 0..20 {
        assert_eq!(feed_forward_layers(&inputs, &outputs, &links), first);
    }
    let required = required_for_output(&inputs, &outputs, &links);
    for layer in &first {
        for id in layer {
            assert!(required.contains(id));
        }
    }
}

#[test]
fn layers_ignore_disabled_links() {
    let inputs = vec![-1];
    let outputs = vec![0];
    let links = vec![link(-1, 0, 1., true), link(-1, 2, 1., true), link(2, 0, 1., false)];
    let layers = feed_forward_layers(&inputs, &outputs, &links);
    assert_eq!(layers, vec![vec![0]]);
}

#[test]
fn an_output_without_links_forms_the_first_layer() {
    let inputs = vec![-1];
    let outputs = vec![0, 1];
    let links = vec![link(-1, 0, 1., true)];
    let layers = feed_forward_layers(&inputs, &outputs, &links);
    assert_eq!(layers, vec![vec![0, 1]]);
}

#[test]
fn neurons_on_a_cycle_are_in_no_layer() {
    let inputs = vec![-1];
    let outputs = vec![0];
    let links = vec![link(-1, 2, 1., true), link(2, 3, 1., true), link(3, 2, 1., true), link(3, 0, 1., true)];
    let layers = feed_forward_layers(&inputs, &outputs, &links);
    assert_eq!(layers, Vec::<Vec<i32>>::new());
}

#[test]
fn hidden_neurons_are_rectified_and_outputs_are_not() {
    let genome = Genome {
        id: 1,
        num_inputs: 1,
        num_outputs: 2,
        neurons: vec![
            NeuronGene { id: 0, bias: bits(-10.) },
            NeuronGene { id: 1, bias: bits(0.5) },
            NeuronGene { id: -1, bias: bits(0.) },
            NeuronGene { id: 2, bias: bits(-1.) },
        ],
        links: vec![link(-1, 2, 1., true), link(2, 1, 3., true), link(-1, 0, 2., true)],
    };
    let net = FeedForwardNeuralNetwork::create_from_genome(&genome);
    let ids: Vec<i32> = net.neurons.iter().map(|n| n.id).collect();
    assert_eq!(ids, vec![0, 2, 1]);
    assert_eq!(activate(&net, vec![0.5]), vec![-9.0, 0.5]);
    assert_eq!(activate(&net, vec![3.0]), vec![-4.0, 6.5]);
}

#[test]
fn a_plan_that_reads_a_later_neuron_is_not_evaluable() {
    let net = FeedForwardNeuralNetwork {
        input_ids: vec![-1],
        output_ids: vec![0],
        neurons: vec![
            Neuron { id: 0, bias: 0, inputs: vec![NeuronInput { input_id: 5, weight: bits(1.) }] },
            Neuron { id: 5, bias: 0, inputs: vec![NeuronInput { input_id: -1, weight: bits(1.) }] },
        ],
    };
    assert!(!net.is_evaluable());
    let mended = FeedForwardNeuralNetwork {
        input_ids: vec![-1],
        output_ids: vec![0],
        neurons: vec![
            Neuron { id: 5, bias: 0, inputs: vec![NeuronInput { input_id: -1, weight: bits(1.) }] },
            Neuron { id: 0, bias: 0, inputs: vec![NeuronInput { input_id: 5, weight: bits(1.) }] },
        ],
    };
    assert!(mended.is_evaluable());
    assert_eq!(activate(&mended, vec![2.0]), vec![2.0]);
}

#[test]
fn an_output_that_no_step_computes_stays_zero() {
    let net = FeedForwardNeuralNetwork { input_ids: vec![-1], output_ids: vec![0, 1], neurons: vec![] };
    assert_eq!(activate(&net, vec![4.0]), vec![0.0, 0.0]);
}
