use namegen::generation::{Generation, Step};
use namegen::model::{Data, END, START};
use namegen::text::{same_chars, to_string, to_upper};
use rand::rngs::StdRng;
use rand::SeedableRng;

fn chars(s: &str) -> Vec<char> {
    s.chars().collect()
}

fn count(data: &Data, ctx: &str, ch: char) -> u32 {
    data.table_for(&chars(ctx)).map(|t| t.count_of(ch)).unwrap_or(0)
}

fn draw_name(data: &Data, rng: &mut StdRng) -> Option<String> {
    let mut g: Generation = data.start_generation();
    for _ in 0..1000 {
        match data.advance(&mut g, rng) {
            Step::Emitted => {}
            Step::Finished => return Some(g.name()),
            Step::NoSuchContext => return None,
        }
    }
    None
}

#[test]
fn singleton_title_case() {
    let context_length = 2;
    let mut data = Data::new(context_length);
    data.observe(String::from("Dan"));
    assert!(data.existing_outputs.contains(&chars("DAN")));
    assert!(data.existing_outputs.len() == 1);
    let start_context = data.initial_context();
    let start_table = data.table_for(&start_context).unwrap();
    assert_eq!(start_table.population, 1);
}

#[test]
fn initial_context_is_start_sentinels() {
    let data = Data::new(3);
    assert_eq!(data.initial_context(), vec![START, START, START]);
}

#[test]
fn dan_tables() {
    let mut data = Data::new(2);
    data.observe(String::from("Dan"));
    assert_eq!(count(&data, "^^", 'D'), 1);
    assert_eq!(data.table_for(&chars("^^")).unwrap().population, 1);
    assert_eq!(count(&data, "^D", 'A'), 1);
    assert_eq!(data.table_for(&chars("^D")).unwrap().population, 1);
    assert_eq!(count(&data, "DA", 'N'), 1);
    assert_eq!(data.table_for(&chars("DA")).unwrap().population, 1);
    assert_eq!(count(&data, "AN", END), 1);
    assert_eq!(data.table_for(&chars("AN")).unwrap().population, 1);
    assert_eq!(data.context_keys.len(), 4);
    assert_eq!(data.existing_outputs, vec![chars("DAN")]);
}

#[test]
fn ann_amy_share_first_context() {
    let mut data = Data::new(2);
    data.observe(String::from("Ann"));
    data.observe(String::from("Amy"));
    assert_eq!(count(&data, "^^", 'A'), 2);
    assert_eq!(data.table_for(&chars("^^")).unwrap().population, 2);
    assert_eq!(count(&data, "^A", 'N'), 1);
    assert_eq!(count(&data, "^A", 'M'), 1);
    assert_eq!(data.table_for(&chars("^A")).unwrap().population, 2);
    assert_eq!(count(&data, "NN", END), 1);
    assert_eq!(count(&data, "MY", END), 1);
}

#[test]
fn observing_twice_changes_nothing() {
    let mut data = Data::new(2);
    data.observe(String::from("Dan"));
    let keys = data.context_keys.clone();
    let populations: Vec<u32> = keys
        .iter()
        .map(|k| data.table_for(k).unwrap().population)
        .collect();
    data.observe(String::from("Dan"));
    data.observe(String::from("dAN"));
    assert_eq!(data.context_keys, keys);
    let again: Vec<u32> = keys
        .iter()
        .map(|k| data.table_for(k).unwrap().population)
        .collect();
    assert_eq!(again, populations);
    assert_eq!(data.existing_outputs, vec![chars("DAN")]);
}

#[test]
fn names_are_stored_in_uppercase() {
    let mut data = Data::new(2);
    data.observe(String::from("maria"));
    assert_eq!(data.existing_outputs, vec![chars("MARIA")]);
    assert!(data.has_seen("Maria"));
    assert!(data.has_seen("MARIA"));
    assert!(!data.has_seen("Mario"));
}

#[test]
fn every_context_has_the_configured_width() {
    let mut data = Data::new(3);
    data.observe(String::from("Bo"));
    data.observe(String::from("Bella"));
    assert!(data.context_keys.iter().all(|k| k.len() == 3));
    assert!(data.table_for(&chars("^^^")).is_some());
}

#[test]
fn last_context_of_each_name_records_the_end() {
    let mut data = Data::new(2);
    data.observe(String::from("Eve"));
    data.observe(String::from("Al"));
    assert_eq!(count(&data, "VE", END), 1);
    assert_eq!(count(&data, "AL", END), 1);
    assert_eq!(count(&data, "^A", END), 0);
}

#[test]
fn single_name_corpus_regenerates_that_name() {
    let mut data = Data::new(2);
    data.observe(String::from("Dan"));
    let mut rng = StdRng::seed_from_u64(11);
    for _ in 0..20 {
        assert_eq!(draw_name(&data, &mut rng), Some(String::from("Dan")));
    }
}

#[test]
fn generated_names_are_title_case() {
    let mut data = Data::new(1);
    for name in ["abby", "BOB", "Cleo", "dora"] {
        data.observe(String::from(name));
    }
    let mut rng = StdRng::seed_from_u64(5);
    for _ in 0..50 {
        let name = draw_name(&data, &mut rng).unwrap();
        let cs: Vec<char> = name.chars().collect();
        assert!(cs[0].is_ascii_uppercase());
        assert!(cs[1..].iter().all(|c| c.is_ascii_lowercase()));
    }
}

#[test]
fn retried_generation_finds_an_unseen_name() {
    let mut data = Data::new(1);
    data.observe(String::from("Ab"));
    data.observe(String::from("Ba"));
    let mut rng = StdRng::seed_from_u64(2);
    let mut found = None;
    for _ in 0..10000 {
        let name = draw_name(&data, &mut rng).unwrap();
        if !data.has_seen(&name) {
            found = Some(name);
            break;
        }
    }
    let name = found.unwrap();
    assert!(!data.existing_outputs.contains(&to_upper(&name)));
}

#[test]
fn empty_model_has_no_context() {
    let data = Data::new(2);
    let mut rng = StdRng::seed_from_u64(1);
    let mut g = data.start_generation();
    assert!(matches!(data.advance(&mut g, &mut rng), Step::NoSuchContext));
    assert!(g.rendered.is_empty());
}

#[test]
fn apply_renders_title_case_and_slides() {
    let data = Data::new(2);
    let mut g = data.start_generation();
    assert!(!g.apply('D'));
    assert!(!g.apply('A'));
    assert_eq!(g.context, vec!['D', 'A']);
    assert!(g.apply(END));
    assert_eq!(g.name(), "Da");
}

#[test]
fn text_helpers() {
    assert_eq!(to_upper("aBc-é"), vec!['A', 'B', 'C', '-', 'é']);
    assert_eq!(to_string(&chars("xyz")), "xyz");
    assert!(same_chars(&chars("ab"), &chars("ab")));
    assert!(!same_chars(&chars("ab"), &chars("abc")));
    assert!(!same_chars(&chars("ab"), &chars("ac")));
}

#[test]
fn room_for_a_name() {
    let mut data = Data::new(2);
    assert!(data.can_observe(&String::from("Dan")));
    data.observe(String::from("Dan"));
    assert!(data.can_observe(&String::from("Dan")));
}
