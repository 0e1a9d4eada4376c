use residuality::analysis::matrix::{
    analyze_coupling, analyze_highest_col_totals, analyze_highest_row_totals,
    analyze_identical_responses_to_stress, analyze_unstressed_components,
    generate_incidence_matrix, sum_cols, sum_rows,
};
use residuality::model::{Component, IdSet, Stressor};

// Tiny builders so each test isn't buried in empty-string fields.
fn component(id: &str) -> Component {
    Component {
        id: id.to_string(),
        name: Some(String::new()),
    }
}

fn stressor(id: &str, affects: &[&str]) -> Stressor {
    Stressor {
        id: Some(id.to_string()),
        name: Some(String::new()),
        detection: Some(String::new()),
        attractor: Some(String::new()),
        business_reaction: Some(String::new()),
        technical_change: Some(String::new()),
        affected_components: IdSet::from_vec(affects.iter().map(|s| s.to_string()).collect()),
    }
}

#[test]
fn marks_affected_components_with_1() {
    let components = vec![component("a"), component("b"), component("c")];
    let stressors = vec![stressor("s1", &["a", "c"])];

    let matrix = generate_incidence_matrix(stressors, components);

    assert_eq!(matrix.table, vec![vec![1, 0, 1]]);
}

#[test]
fn stressor_affecting_nothing_yields_all_zero_row() {
    let components = vec![component("a"), component("b")];
    let stressors = vec![stressor("s1", &[])];

    let matrix = generate_incidence_matrix(stressors, components);

    assert_eq!(matrix.table, vec![vec![0, 0]]);
}

#[test]
fn no_stressors_yields_empty_table() {
    let components = vec![component("a"), component("b")];
    let stressors = vec![];

    let matrix = generate_incidence_matrix(stressors, components);

    assert_eq!(matrix.table, Vec::<Vec<u32>>::new());
}

#[test]
fn col_sum_counts_stressors_hitting_a_component() {
    let stressors = vec![stressor("s1", &["c3"]), stressor("s2", &["c1", "c3"])];
    let components = vec![component("c1"), component("c2"), component("c3")];

    let matrix = generate_incidence_matrix(stressors, components);

    assert_eq!(sum_cols(&matrix), vec![1, 0, 2]);
}

#[test]
fn row_sum_counts_components_a_stressor_hits() {
    let stressors = vec![
        stressor("s1", &["c1", "c3"]),
        stressor("s2", &["c1", "c2", "c3"]),
    ];
    let components = vec![component("c1"), component("c2"), component("c3")];

    let matrix = generate_incidence_matrix(stressors, components);

    assert_eq!(sum_rows(&matrix), vec![2, 3]);
}

#[test]
fn reports_components_no_stressor_touches() {
    let stressors = vec![stressor("s1", &["c3"]), stressor("s2", &["c1"])];
    let components = vec![component("c1"), component("c2"), component("c3")];

    let matrix = generate_incidence_matrix(stressors, components);

    assert_eq!(
        analyze_unstressed_components(&matrix),
        vec![&matrix.components[1]]
    );
}

#[test]
fn reports_nothing_when_every_component_is_stressed() {
    let stressors = vec![stressor("s2", &["c1", "c"]), stressor("s1", &["c2", "c3"])];
    let components = vec![component("c1"), component("c2"), component("c3")];

    let matrix = generate_incidence_matrix(stressors, components);

    let result: Vec<&Component> = Vec::new();

    assert_eq!(analyze_unstressed_components(&matrix), result);
}

#[test]
fn only_above_average_stressors_reported() {
    let stressors = vec![stressor("s1", &["c2", "c3", "c1"]), stressor("s2", &[])];
    let components = vec![component("c1"), component("c2"), component("c3")];

    let matrix = generate_incidence_matrix(stressors, components);

    assert_eq!(
        analyze_highest_row_totals(&matrix),
        vec![(&matrix.stressors[0], 3)]
    );
}

#[test]
fn only_above_average_components_reported() {
    let stressors = vec![stressor("s1", &["c1"]), stressor("s2", &["c1"])];
    let components = vec![component("c1"), component("c2"), component("c3")];

    let matrix = generate_incidence_matrix(stressors, components);

    assert_eq!(
        analyze_highest_col_totals(&matrix),
        vec![(&matrix.components[0], 2)]
    );
}

#[test]
fn reports_shared_stressor_count_per_pair() {
    let stressors = vec![
        stressor("s1", &["c1", "c2"]),
        stressor("s2", &["c1", "c2"]),
        stressor("s3", &["c1", "c2"]),
    ];
    let components = vec![component("c1"), component("c2"), component("c3")];

    let matrix = generate_incidence_matrix(stressors, components);

    assert_eq!(
        analyze_coupling(&matrix),
        vec![(&matrix.components[0], &matrix.components[1], 3)]
    );
}

#[test]
fn ranks_strongest_first_and_drops_below_average() {
    // Pair counts: (c1,c2)=3, (c2,c3)=4, (c1,c3)=2 → average 3.
    // The 2 is filtered out; the survivors' sorted order (4 before 3)
    // is the reverse of loop visit order, so the sort is load-bearing.
    let components = vec![component("c1"), component("c2"), component("c3")];
    let stressors = vec![
        stressor("s1", &["c1", "c2"]),
        stressor("s2", &["c1", "c2"]),
        stressor("s3", &["c1", "c2"]),
        stressor("s4", &["c2", "c3"]),
        stressor("s5", &["c2", "c3"]),
        stressor("s6", &["c2", "c3"]),
        stressor("s7", &["c2", "c3"]),
        stressor("s8", &["c1", "c3"]),
        stressor("s9", &["c1", "c3"]),
    ];

    let matrix = generate_incidence_matrix(stressors, components);

    assert_eq!(
        analyze_coupling(&matrix),
        vec![
            (&matrix.components[1], &matrix.components[2], 4),
            (&matrix.components[0], &matrix.components[1], 3)
        ]
    );
}

#[test]
fn clusters_components_with_identical_columns() {
    let stressors = vec![stressor("s1", &["c1", "c2"]), stressor("s2", &["c1", "c2"])];
    let components = vec![component("c1"), component("c2"), component("c3")];

    let matrix = generate_incidence_matrix(stressors, components);

    assert_eq!(
        analyze_identical_responses_to_stress(&matrix),
        vec![vec![&matrix.components[0], &matrix.components[1]]]
    );
}

#[test]
fn all_zero_columns_do_not_form_a_cluster() {
    let components = vec![component("c1"), component("c2"), component("c3")];
    let stressors = vec![stressor("s1", &["c1"]), stressor("s2", &["c1"])];

    let matrix = generate_incidence_matrix(stressors, components);

    assert_eq!(
        analyze_identical_responses_to_stress(&matrix),
        Vec::<Vec<&Component>>::new()
    );
}

#[test]
fn no_stressors_means_no_clusters() {
    let components = vec![component("c1"), component("c2"), component("c3")];
    let stressors = vec![];

    let matrix = generate_incidence_matrix(stressors, components);

    assert_eq!(
        analyze_identical_responses_to_stress(&matrix),
        Vec::<Vec<&Component>>::new()
    );
}
