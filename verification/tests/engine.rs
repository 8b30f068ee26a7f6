use gems::collection::{EngineError, GemCollection, DEFAULT_ROUNDS};
use gems::freq::FreqTable;
use gems::gem::Gem;

fn gem(text: &str, facets: &[&str]) -> Gem {
    Gem::new(
        vec![(0, String::from(text))],
        facets.iter().map(|f| String::from(*f)).collect(),
    )
}

fn names(v: &[&str]) -> Vec<String> {
    v.iter().map(|f| String::from(*f)).collect()
}

#[test]
fn gem_construction_dedups_facets() {
    let g = gem("sentence", &["a", "b", "a"]);
    assert_eq!(g.unknown_count(), 2);
    assert_eq!(g.unknown_facets(), &names(&["a", "b"]));
    assert!(g.has_facet(&String::from("b")));
    assert!(!g.has_facet(&String::from("c")));
}

#[test]
fn missing_gem_is_reported() {
    let c = GemCollection::new(vec![gem("s", &["a"])]);
    assert!(c.gem(0).is_ok());
    assert_eq!(c.gem(1).unwrap_err(), EngineError::MissingGem);
}

#[test]
fn indexing_files_gems_by_count_and_facet() {
    let mut c = GemCollection::new(vec![
        gem("g0", &["x", "y"]),
        gem("g1", &["x"]),
        gem("g2", &["y", "z"]),
    ]);
    c.index_all_gems_by_number();
    assert_eq!(c.gems_with_count(1), vec![1]);
    assert_eq!(c.gems_with_count(2), vec![0, 2]);
    assert_eq!(c.gems_with_count(3), Vec::<usize>::new());
    assert_eq!(c.gems_with_facet(&String::from("x")), vec![0, 1]);
    assert_eq!(c.gems_with_facet(&String::from("y")), vec![0, 2]);
    assert_eq!(c.gems_with_facet(&String::from("z")), vec![2]);
    assert_eq!(c.gems_with_facet(&String::from("w")), Vec::<usize>::new());
}

#[test]
fn frequency_counter_tallies_per_gem() {
    let mut c = GemCollection::new(vec![
        gem("g0", &["x", "y"]),
        gem("g1", &["x"]),
        gem("g2", &["y", "z"]),
    ]);
    c.index_all_gems_by_number();
    let t = c.create_frequency_hashmap_from_facets_of_n2_gem_indices(&vec![0, 2]);
    assert_eq!(t.get(&String::from("x")), 1);
    assert_eq!(t.get(&String::from("y")), 2);
    assert_eq!(t.get(&String::from("z")), 1);
    assert_eq!(t.get(&String::from("w")), 0);
}

#[test]
fn selector_picks_highest_average_weight() {
    // weight(g1) = (5 + 1) / 2 = 3, weight(g2) = 5 / 1 = 5: g2's set wins.
    let mut c = GemCollection::new(vec![gem("g1", &["a", "b"]), gem("g2", &["a"])]);
    c.index_all_gems_by_number();
    let mut t = FreqTable::new();
    t.set_count(String::from("a"), 5);
    t.set_count(String::from("b"), 1);
    let picked = c.choose_max_n1_gem_facets_by_frequency_hashmap(&vec![0, 1], &t, 2);
    assert_eq!(picked, names(&["a"]));
}

#[test]
fn selector_keeps_first_gem_on_ties() {
    let mut c = GemCollection::new(vec![gem("g0", &["a"]), gem("g1", &["b"])]);
    c.index_all_gems_by_number();
    let mut t = FreqTable::new();
    t.set_count(String::from("a"), 4);
    t.set_count(String::from("b"), 4);
    let picked = c.choose_max_n1_gem_facets_by_frequency_hashmap(&vec![0, 1], &t, 2);
    assert_eq!(picked, names(&["a"]));
}

#[test]
fn selector_falls_back_to_baseline() {
    // The provided table knows none of the candidate's facets, but the
    // baseline counted them at indexing time, so the result is nonempty.
    let mut c = GemCollection::new(vec![gem("g0", &["x"])]);
    c.index_all_gems_by_number();
    let mut t = FreqTable::new();
    t.set_count(String::from("other"), 3);
    let picked = c.choose_max_n1_gem_facets_by_frequency_hashmap(&vec![0], &t, 2);
    assert_eq!(picked, names(&["x"]));
}

#[test]
fn selector_reports_nothing_viable_as_empty() {
    // A candidate without unknown facets scores with no table at all.
    let mut c = GemCollection::new(vec![gem("done", &[])]);
    c.index_all_gems_by_number();
    let t = FreqTable::new();
    let picked = c.choose_max_n1_gem_facets_by_frequency_hashmap(&vec![0], &t, 2);
    assert_eq!(picked, Vec::<String>::new());
}

#[test]
fn round_strips_and_refiles_end_to_end() {
    let mut c = GemCollection::new(vec![
        gem("g0", &["x", "y"]),
        gem("g1", &["x"]),
        gem("g2", &["y", "z"]),
    ]);
    c.index_all_gems_by_number();
    // Smallest class is {g1} (one facet), supporting class {g0, g2}; the
    // frequency table {x:1, y:1, z:1} gives g1 weight 1, so "x" is nominated;
    // g0 and g1 hold "x" and are stripped.
    let nominated = c.run_round().unwrap();
    assert_eq!(nominated, names(&["x"]));
    assert_eq!(c.gem(0).unwrap().unknown_facets(), &names(&["y"]));
    assert_eq!(c.gem(1).unwrap().unknown_facets(), &Vec::<String>::new());
    assert_eq!(c.gem(2).unwrap().unknown_facets(), &names(&["y", "z"]));
    assert_eq!(c.gems_with_count(0), vec![1]);
    assert_eq!(c.gems_with_count(1), vec![0]);
    assert_eq!(c.gems_with_count(2), vec![2]);
    assert_eq!(c.gems_with_facet(&String::from("x")), Vec::<usize>::new());
    assert_eq!(c.gems_with_facet(&String::from("y")), vec![0, 2]);
    assert_eq!(c.known_facets(), &names(&["x"]));
}

#[test]
fn round_requires_two_size_classes() {
    let mut empty = GemCollection::new(vec![]);
    empty.index_all_gems_by_number();
    assert_eq!(empty.run_round().unwrap_err(), EngineError::EmptyCandidateGroup);

    let mut single = GemCollection::new(vec![gem("g0", &["a"]), gem("g1", &["b"])]);
    single.index_all_gems_by_number();
    // Both gems share one size class, so no second class exists.
    assert_eq!(single.run_round().unwrap_err(), EngineError::EmptyCandidateGroup);
}

#[test]
fn round_reports_no_viable_selection() {
    let mut c = GemCollection::new(vec![
        gem("g0", &["x", "y"]),
        gem("g1", &["x"]),
        gem("g2", &["y", "z"]),
    ]);
    c.index_all_gems_by_number();
    assert!(c.run_round().is_ok());
    // g1 is now fully known and sits in size class 0, the smallest class;
    // a gem with no facets can never score, with either table.
    assert_eq!(c.run_round().unwrap_err(), EngineError::NoViableFacetSelection);
}

#[test]
fn ordering_collects_rounds_until_terminal() {
    let mut c = GemCollection::new(vec![
        gem("g0", &["x", "y"]),
        gem("g1", &["x"]),
        gem("g2", &["y", "z"]),
    ]);
    c.index_all_gems_by_number();
    let (nominations, end) = c.run_ordering(DEFAULT_ROUNDS);
    assert_eq!(nominations, vec![names(&["x"])]);
    assert_eq!(end, Some(EngineError::NoViableFacetSelection));
}

#[test]
fn ordering_respects_the_round_budget() {
    let mut c = GemCollection::new(vec![
        gem("g0", &["x", "y"]),
        gem("g1", &["x"]),
        gem("g2", &["y", "z"]),
    ]);
    c.index_all_gems_by_number();
    let (nominations, end) = c.run_ordering(0);
    assert_eq!(nominations, Vec::<Vec<String>>::new());
    assert_eq!(end, None);
    let (nominations, end) = c.run_ordering(1);
    assert_eq!(nominations, vec![names(&["x"])]);
    assert_eq!(end, None);
}

#[test]
fn two_runs_agree() {
    let build = || {
        let mut c = GemCollection::new(vec![
            gem("g0", &["x", "y"]),
            gem("g1", &["x"]),
            gem("g2", &["y", "z"]),
            gem("g3", &["w", "y", "z"]),
        ]);
        c.index_all_gems_by_number();
        c
    };
    let (a, ea) = build().run_ordering(DEFAULT_ROUNDS);
    let (b, eb) = build().run_ordering(DEFAULT_ROUNDS);
    assert_eq!(a, b);
    assert_eq!(ea, eb);
}

#[test]
fn sides_survive_every_round() {
    let mut c = GemCollection::new(vec![
        gem("first card", &["x", "y"]),
        gem("second card", &["x"]),
    ]);
    c.index_all_gems_by_number();
    let _ = c.run_round();
    assert_eq!(c.gem(0).unwrap().sides(), &vec![(0, String::from("first card"))]);
    assert_eq!(c.gem(1).unwrap().sides(), &vec![(0, String::from("second card"))]);
}
