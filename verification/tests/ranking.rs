use crate_search::matching::{build_pattern, match_positions};
use crate_search::ranking::search_names;
use crate_search::scoring::{score_name, starts_name};
use crate_search::session::{handle_input, State, TO_TAKE};
use crate_search::text::{eq_ci, to_chars};

#[test]
fn distance_based() {
    let pattern = build_pattern("hpr").unwrap();
    assert_eq!(score_name(&"hyper".to_string(), &pattern), Some(2));
    assert_eq!(score_name(&"hypermegalib".to_string(), &pattern), Some(2));
    assert_eq!(score_name(&"hypexmegalir".to_string(), &pattern), Some(9));
    assert_eq!(score_name(&"yhper".to_string(), &pattern), Some(2));
}

#[test]
fn acronyms() {
    let query = "yhm";
    let pattern = build_pattern(query).unwrap();
    assert_eq!(score_name(&"yup-hyper-mock".to_string(), &pattern), Some(0));
    assert_eq!(score_name(&"yup_hyper_mock".to_string(), &pattern), Some(0));
    assert_eq!(score_name(&"yupHyperMock".to_string(), &pattern), Some(0));
    assert_eq!(score_name(&"yHemr".to_string(), &pattern), Some(1));
    assert_eq!(score_name(&"yup-hymn".to_string(), &pattern), Some(1));
}

#[test]
fn single_name_empty_query() {
    let r = search_names(&vec!["hyper".to_string()], "").unwrap();
    assert_eq!(r, vec![("hyper".to_string(), 0)]);
}

#[test]
fn empty_query_scores_zero_and_orders_by_length() {
    let names = vec![
        "bbb".to_string(),
        "aa".to_string(),
        "cc".to_string(),
        "a".to_string(),
    ];
    let r = search_names(&names, "").unwrap();
    assert_eq!(
        r,
        vec![
            ("a".to_string(), 0),
            ("aa".to_string(), 0),
            ("cc".to_string(), 0),
            ("bbb".to_string(), 0),
        ]
    );
}

#[test]
fn empty_name_list_yields_no_results() {
    assert!(search_names(&vec![], "x").unwrap().is_empty());
    assert!(search_names(&vec![], "").unwrap().is_empty());
}

#[test]
fn non_matching_names_are_excluded() {
    let names = vec!["hyper".to_string()];
    assert!(search_names(&names, "xyz").unwrap().is_empty());
    // The characters must occur in order: reversed they do not.
    assert!(search_names(&names, "rph").unwrap().is_empty());
}

#[test]
fn query_case_is_ignored() {
    let lower = build_pattern("hpr").unwrap();
    let upper = build_pattern("HPR").unwrap();
    let name = "hyper".to_string();
    assert_eq!(score_name(&name, &lower), score_name(&name, &upper));
    assert_eq!(score_name(&name, &upper), Some(2));
}

#[test]
fn matching_ignores_name_case() {
    let pattern = build_pattern("hpr").unwrap();
    assert!(score_name(&"hYpEr".to_string(), &pattern).is_some());
    // An uppercase name still matches; its score differs, since every
    // uppercase letter begins a subname and skips between subnames are free.
    assert_eq!(score_name(&"HYPER".to_string(), &pattern), Some(0));
}

#[test]
fn leftmost_positions_are_reported() {
    let pattern = build_pattern("ab").unwrap();
    let name = to_chars("xaxbxab");
    assert_eq!(match_positions(&name, &pattern), Some(vec![1, 3]));
}

#[test]
fn empty_query_matches_with_no_positions() {
    let pattern = build_pattern("").unwrap();
    let name = to_chars("anything");
    assert_eq!(match_positions(&name, &pattern), Some(vec![]));
}

#[test]
fn subname_starts() {
    let name = to_chars("yup-hyper_mockCase");
    assert!(starts_name(-1, &name));
    assert!(starts_name(0, &name));
    assert!(starts_name(4, &name)); // after '-'
    assert!(starts_name(10, &name)); // after '_'
    assert!(starts_name(14, &name)); // 'C' of "Case"
    assert!(!starts_name(1, &name));
    assert!(!starts_name(5, &name));
}

#[test]
fn equal_scores_rank_shorter_names_first() {
    let names = vec![
        "hyperx".to_string(),
        "hyper".to_string(),
        "typerx".to_string(),
    ];
    let r = search_names(&names, "hpr").unwrap();
    assert_eq!(r, vec![("hyper".to_string(), 2), ("hyperx".to_string(), 2)]);
}

#[test]
fn exact_ties_keep_input_order() {
    let names = vec!["axbyc".to_string(), "aybxc".to_string()];
    let r = search_names(&names, "abc").unwrap();
    assert_eq!(r, vec![("axbyc".to_string(), 2), ("aybxc".to_string(), 2)]);
}

#[test]
fn ranking_is_deterministic() {
    let names = vec![
        "yup-hyper-mock".to_string(),
        "hyper".to_string(),
        "yup-hymn".to_string(),
    ];
    let a = search_names(&names, "yhm").unwrap();
    let b = search_names(&names, "yhm").unwrap();
    assert_eq!(
        a,
        vec![("yup-hyper-mock".to_string(), 0), ("yup-hymn".to_string(), 1)]
    );
    assert_eq!(a, b);
}

#[test]
fn pattern_accepts_special_characters() {
    let r = search_names(&vec!["a(b".to_string()], "(").unwrap();
    assert_eq!(r, vec![("a(b".to_string(), 1)]);
    let r = search_names(&vec!["d.*x".to_string()], ".*").unwrap();
    assert_eq!(r, vec![("d.*x".to_string(), 1)]);
}

#[test]
fn handle_input_truncates_to_top_results() {
    let mut index = Vec::new();
    for i in 0..25 {
        index.push(format!("name{:02}", i));
    }
    let state = State { index };
    let items = handle_input(&state, "").unwrap();
    assert_eq!(items.len(), TO_TAKE);
    assert_eq!(items[0].name, "name00");
    assert_eq!(items[19].name, "name19");
    assert!(items[0].version.is_none());
}

#[test]
fn handle_input_returns_all_when_few_match() {
    let state = State {
        index: vec!["hyper".to_string(), "serde".to_string()],
    };
    let items = handle_input(&state, "hpr").unwrap();
    assert_eq!(items.len(), 1);
    assert_eq!(items[0].name, "hyper");
}

#[test]
fn case_insensitive_character_equality() {
    assert!(eq_ci('A', 'a'));
    assert!(eq_ci('z', 'Z'));
    assert!(eq_ci('-', '-'));
    assert!(!eq_ci('a', 'b'));
    assert!(!eq_ci('A', 'B'));
}
