use neat::genome::{Genome, GenomeIds, Individual};
use neat::population::sort_individuals_by_fitness;

fn individual(ids: &mut GenomeIds, fitness: f32) -> Individual {
    let draw = || 0.5f32.to_bits();
    Individual { genome: Genome::new(ids, 1, 1, &draw), fitness: fitness.to_bits() }
}

#[test]
fn sort_puts_the_fittest_first() {
    let mut ids = GenomeIds::new();
    let mut all = vec![
        individual(&mut ids, 1.0),
        individual(&mut ids, -3.5),
        individual(&mut ids, 7.25),
        individual(&mut ids, 0.0),
    ];
    sort_individuals_by_fitness(&mut all);
    let order: Vec<f32> = all.iter().map(|i| f32::from_bits(i.fitness)).collect();
    assert_eq!(order, vec![7.25, 1.0, 0.0, -3.5]);
}
