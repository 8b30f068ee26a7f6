use gems::basic::{
    get_facet_counts, get_gems_with_n_unknown_facets, get_gems_with_n_unknown_facets_sorted,
    get_gems_with_n_unknown_facets_sorted_wrapper, order_gems_by_difficulty, strip_known_facets,
};
use gems::gem::Gem;

fn gem(text: &str, facets: &[&str]) -> Gem {
    Gem::new(
        vec![(0, String::from(text))],
        facets.iter().map(|f| String::from(*f)).collect(),
    )
}

fn names(v: &[&str]) -> Vec<String> {
    v.iter().map(|f| String::from(*f)).collect()
}

fn sample() -> Vec<Gem> {
    vec![
        gem("g0", &["x", "y"]),
        gem("g1", &["x"]),
        gem("g2", &["y", "z"]),
    ]
}

#[test]
fn grouping_by_count_keeps_id_order() {
    let gems = sample();
    assert_eq!(get_gems_with_n_unknown_facets(&gems, 1), vec![1]);
    assert_eq!(get_gems_with_n_unknown_facets(&gems, 2), vec![0, 2]);
    assert_eq!(get_gems_with_n_unknown_facets(&gems, 3), Vec::<usize>::new());
}

#[test]
fn facet_counts_cover_one_size_group() {
    let gems = sample();
    let t = get_facet_counts(&gems, 2);
    assert_eq!(t.get(&String::from("x")), 1);
    assert_eq!(t.get(&String::from("y")), 2);
    assert_eq!(t.get(&String::from("z")), 1);
    assert_eq!(t.get(&String::from("w")), 0);
}

#[test]
fn ranking_prefers_tallied_first_facets() {
    // Among the single-facet gems, g1's first facet "x" occurs in the
    // two-facet group while g0's "y" does not, so g1 ranks first.
    let gems = vec![gem("g0", &["y"]), gem("g1", &["x"]), gem("g2", &["x", "z"])];
    assert_eq!(get_gems_with_n_unknown_facets_sorted(&gems, 1), vec![1, 0]);
}

#[test]
fn ranking_is_stable_on_equal_ranks() {
    let gems = vec![gem("g0", &["x"]), gem("g1", &["y"]), gem("g2", &["x", "y"])];
    // Both "x" and "y" occur once in the two-facet group: ties keep id order.
    assert_eq!(get_gems_with_n_unknown_facets_sorted(&gems, 1), vec![0, 1]);
}

#[test]
fn wrapper_climbs_to_the_first_busy_count() {
    let gems = vec![gem("g0", &["x", "y"]), gem("g1", &["y", "z"])];
    // No gem has exactly one unknown facet, so the wrapper settles on two.
    assert_eq!(get_gems_with_n_unknown_facets_sorted_wrapper(&gems), vec![0, 1]);
}

#[test]
fn stripping_removes_only_taught_facets() {
    let stripped = strip_known_facets(names(&["x"]), sample());
    assert_eq!(stripped[0].unknown_facets(), &names(&["y"]));
    assert_eq!(stripped[1].unknown_facets(), &Vec::<String>::new());
    assert_eq!(stripped[2].unknown_facets(), &names(&["y", "z"]));
    assert_eq!(stripped[0].sides(), &vec![(0, String::from("g0"))]);
}

#[test]
fn flat_ordering_teaches_batch_by_batch() {
    let batches = order_gems_by_difficulty(sample());
    assert_eq!(batches, vec![names(&["x"]), names(&["y"]), names(&["z"])]);
}

#[test]
fn flat_ordering_of_nothing_is_empty() {
    let batches = order_gems_by_difficulty(vec![gem("done", &[])]);
    assert_eq!(batches, Vec::<Vec<String>>::new());
}
