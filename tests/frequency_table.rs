use namegen::frequency_table::FrequencyTable;
use rand::rngs::StdRng;
use rand::SeedableRng;

#[test]
fn singleton() {
    let mut rng = StdRng::seed_from_u64(7);
    let mut table = FrequencyTable::new();
    table.observe('a');
    let result = table.rand(&mut rng);
    assert_eq!(result, 'a');
}

#[test]
fn singleton_samples_its_key_for_every_seed() {
    let mut table = FrequencyTable::new();
    table.observe('a');
    table.observe('a');
    for seed in 0..200u64 {
        let mut rng = StdRng::seed_from_u64(seed);
        assert_eq!(table.rand(&mut rng), 'a');
    }
}

#[test]
fn population_counts_every_observation() {
    let mut table = FrequencyTable::new();
    assert_eq!(table.population, 0);
    table.observe('a');
    table.observe('b');
    table.observe('a');
    assert_eq!(table.population, 3);
    assert_eq!(table.count_of('a'), 2);
    assert_eq!(table.count_of('b'), 1);
    assert_eq!(table.count_of('c'), 0);
    assert_eq!(table.count_of('a') + table.count_of('b'), table.population);
}

#[test]
fn sample_at_walks_cumulative_counts() {
    let mut table = FrequencyTable::new();
    table.observe('x');
    table.observe('y');
    table.observe('x');
    table.observe('z');
    assert_eq!(table.sample_at(0), 'x');
    assert_eq!(table.sample_at(1), 'x');
    assert_eq!(table.sample_at(2), 'y');
    assert_eq!(table.sample_at(3), 'z');
}

#[test]
fn draws_reach_every_observed_key() {
    let mut table = FrequencyTable::new();
    table.observe('p');
    table.observe('q');
    let mut rng = StdRng::seed_from_u64(3);
    let mut saw_p = false;
    let mut saw_q = false;
    for _ in 0..500 {
        match table.rand(&mut rng) {
            'p' => saw_p = true,
            'q' => saw_q = true,
            other => panic!("unexpected key {}", other),
        }
    }
    assert!(saw_p && saw_q);
}
