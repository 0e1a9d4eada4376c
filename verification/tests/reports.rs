use residuality::analysis::matrix::{
    analyze_coupling, analyze_highest_col_totals, analyze_highest_row_totals,
    analyze_identical_responses_to_stress, analyze_unstressed_components, count_links,
    coupling_fits_u32, generate_incidence_matrix, links_fit_u32, sum_cols, sum_rows, sums_fit_u32,
};
use residuality::commands::analyze::contagion_report;
use residuality::model::{Component, IdSet, Matrix, Stressor};
use residuality::storage::{analysis_path_for_stamp, matrix_csv_rows, matrix_path_for_date};
use residuality::views::matrix::label_width;

fn component(id: &str, name: Option<&str>) -> Component {
    Component {
        id: id.to_string(),
        name: name.map(|s| s.to_string()),
    }
}

fn stressor(id: &str, name: Option<&str>, affects: &[&str]) -> Stressor {
    Stressor {
        id: Some(id.to_string()),
        name: name.map(|s| s.to_string()),
        detection: None,
        attractor: None,
        business_reaction: None,
        technical_change: None,
        affected_components: IdSet::from_vec(affects.iter().map(|s| s.to_string()).collect()),
    }
}

#[test]
fn export_rows_label_components_and_stressors() {
    let matrix = Matrix {
        table: vec![vec![1, 0, 1]],
        components: vec![
            component("network", Some("Network")),
            component("server", Some("Server")),
            component("storage", Some("Storage")),
        ],
        stressors: vec![stressor("apocolypse", Some("Apocolypse"), &[])],
    };

    let rows = matrix_csv_rows(&matrix);

    assert_eq!(
        rows,
        vec![
            vec!["", "Network", "Server", "Storage"],
            vec!["Apocolypse", "1", "0", "1"],
        ]
    );
}

#[test]
fn export_falls_back_to_ids() {
    let matrix = generate_incidence_matrix(
        vec![stressor("s1", None, &["b"]), stressor("s2", Some("Flood"), &["a", "b"])],
        vec![component("a", None), component("b", Some("Bee"))],
    );
    assert_eq!(
        matrix_csv_rows(&matrix),
        vec![vec!["", "a", "Bee"], vec!["s1", "0", "1"], vec!["Flood", "1", "1"]]
    );
}

#[test]
fn report_paths() {
    assert_eq!(matrix_path_for_date("20240131"), "reports/matrix_20240131.csv");
    assert_eq!(analysis_path_for_stamp("20240131_0915"), "reports/analysis_20240131_0915.md");
}

#[test]
fn label_width_fits_longest_id_or_header() {
    assert_eq!(label_width(&[]), 8);
    assert_eq!(label_width(&[stressor("s1", None, &[])]), 8);
    assert_eq!(
        label_width(&[stressor("s1", None, &[]), stressor("vendor_bankrupt", None, &[])]),
        15
    );
    // Width in characters, as the padding of the printed label counts it.
    assert_eq!(label_width(&[stressor("ééééééééé", None, &[])]), 9);
}

#[test]
fn row_and_column_totals_count_the_same_links() {
    let matrix = generate_incidence_matrix(
        vec![
            stressor("s1", None, &["a", "c"]),
            stressor("s2", None, &["b"]),
            stressor("s3", None, &["a", "b", "c", "zz"]),
        ],
        vec![component("a", None), component("b", None), component("c", None)],
    );
    let rows: u32 = sum_rows(&matrix).iter().sum();
    let cols: u32 = sum_cols(&matrix).iter().sum();
    assert_eq!(rows, 6);
    assert_eq!(cols, 6);
    assert_eq!(count_links(&matrix), 6);
}

#[test]
fn untouched_components_have_empty_columns() {
    let matrix = generate_incidence_matrix(
        vec![stressor("s1", None, &["a"]), stressor("s2", None, &["c"])],
        vec![component("a", None), component("b", None), component("c", None), component("d", None)],
    );
    let sums = sum_cols(&matrix);
    let untouched = analyze_unstressed_components(&matrix);
    assert_eq!(untouched, vec![&matrix.components[1], &matrix.components[3]]);
    for (i, c) in matrix.components.iter().enumerate() {
        assert_eq!(untouched.contains(&c), sums[i] == 0);
    }
}

#[test]
fn untouched_components_are_reported_once_per_value() {
    let matrix = generate_incidence_matrix(
        vec![stressor("s1", None, &["a"])],
        vec![component("b", None), component("a", None), component("b", None)],
    );
    assert_eq!(analyze_unstressed_components(&matrix), vec![&matrix.components[0]]);
}

#[test]
fn clusters_are_disjoint_and_share_columns() {
    let matrix = generate_incidence_matrix(
        vec![
            stressor("s1", None, &["a", "c", "d"]),
            stressor("s2", None, &["b", "e"]),
            stressor("s3", None, &["a", "c", "d"]),
        ],
        vec![
            component("a", None),
            component("b", None),
            component("c", None),
            component("d", None),
            component("e", None),
            component("f", None),
        ],
    );
    let c = &matrix.components;
    assert_eq!(
        analyze_identical_responses_to_stress(&matrix),
        vec![vec![&c[0], &c[2], &c[3]], vec![&c[1], &c[4]]]
    );
}

#[test]
fn ties_keep_their_order() {
    let matrix = generate_incidence_matrix(
        vec![
            stressor("s1", None, &["a"]),
            stressor("s2", None, &["a", "b", "c"]),
            stressor("s3", None, &["a", "b", "c"]),
            stressor("s4", None, &[]),
        ],
        vec![component("a", None), component("b", None), component("c", None)],
    );
    // Rows: 1, 3, 3, 0 (mean 7/4): the two 3s, in their order.
    assert_eq!(
        analyze_highest_row_totals(&matrix),
        vec![(&matrix.stressors[1], 3), (&matrix.stressors[2], 3)]
    );
    // Columns: 3, 2, 2 (mean 7/3): only the 3.
    assert_eq!(analyze_highest_col_totals(&matrix), vec![(&matrix.components[0], 3)]);
}

#[test]
fn a_mean_equal_count_is_not_above_it() {
    let matrix = generate_incidence_matrix(
        vec![stressor("s1", None, &["a"]), stressor("s2", None, &["b"])],
        vec![component("a", None), component("b", None)],
    );
    assert!(analyze_highest_row_totals(&matrix).is_empty());
    assert!(analyze_highest_col_totals(&matrix).is_empty());
}

#[test]
fn empty_matrix_has_no_findings() {
    let matrix = generate_incidence_matrix(vec![], vec![]);
    assert!(analyze_highest_row_totals(&matrix).is_empty());
    assert!(analyze_highest_col_totals(&matrix).is_empty());
    assert!(analyze_coupling(&matrix).is_empty());
    assert!(analyze_identical_responses_to_stress(&matrix).is_empty());
    assert!(analyze_unstressed_components(&matrix).is_empty());
    assert_eq!(count_links(&matrix), 0);
}

#[test]
fn coupling_keeps_counts_at_the_rounded_down_mean() {
    // Pair counts (a,b)=2, (a,c)=1, (b,c)=1: mean 4/3, rounded down 1, so all stay.
    let matrix = generate_incidence_matrix(
        vec![stressor("s1", None, &["a", "b"]), stressor("s2", None, &["a", "b", "c"])],
        vec![component("a", None), component("b", None), component("c", None)],
    );
    let c = &matrix.components;
    assert_eq!(
        analyze_coupling(&matrix),
        vec![(&c[0], &c[1], 2), (&c[0], &c[2], 1), (&c[1], &c[2], 1)]
    );
}

#[test]
fn report_lists_every_section() {
    let matrix = generate_incidence_matrix(
        vec![
            stressor("s1", Some("Vendor dies"), &["a", "b"]),
            stressor("s2", None, &["a", "b"]),
            stressor("s3", None, &["c"]),
        ],
        vec![
            component("a", Some("Auth")),
            component("b", Some("Billing")),
            component("c", None),
            component("d", None),
        ],
    );
    let couplings = analyze_coupling(&matrix);
    let clusters = analyze_identical_responses_to_stress(&matrix);
    let rows = analyze_highest_row_totals(&matrix);
    let cols = analyze_highest_col_totals(&matrix);
    let untouched = analyze_unstressed_components(&matrix);
    let report = contagion_report(
        matrix.components.len(),
        matrix.stressors.len(),
        &couplings,
        &clusters,
        &rows,
        &cols,
        &untouched,
    );
    let expected = "# Contagion Triggers\n\
_Generated from 4 components × 3 stressors._\n\
\n\
### 1 Coupled pairs (hidden hyperliminal coupling)\n\
Rows where one stressor hits ≥2 components. If those components aren't functionally linked, this coupling is invisible until the stressor actually occurs.\n\
\n\
- Auth and Billing have 2 common stressors\n\
\n\
### 1 Merge candidates (identical stress response)\n\
Components whose columns are identical, they live and die together, so a change in one usually means a change in the other.\n\
\n\
- Auth, Billing\n\
\n\
### 2 Highest row totals (most impactful stressors)\n\
High totals here concentrate hyperliminal coupling, often a non-functional concern.\n\
\n\
|Stressor|Components hit|\n\
|---|---|\n\
|Vendor dies|2|\n\
|s2|2|\n\
\n\
### 2 Highest column totals (most stress-sensitive components)\n\
Doing too much, or genuinely load-bearing. If the latter, apply redundancy.\n\
\n\
|Component|Stressors hitting it|\n\
|---|---|\n\
|Auth|2|\n\
|Billing|2|\n\
\n\
### 1 Untouched components\n\
Likely under-stressed rather than invulnerable. Add more stressors touching it.\n\
\n\
- d - hit by 0 stressors\n";
    assert_eq!(report, expected);
}

#[test]
fn no_stressors_means_no_coupling_and_everything_untouched() {
    let matrix = generate_incidence_matrix(
        vec![],
        vec![component("a", None), component("b", None)],
    );
    assert!(analyze_coupling(&matrix).is_empty());
    assert!(analyze_identical_responses_to_stress(&matrix).is_empty());
    assert_eq!(
        analyze_unstressed_components(&matrix),
        vec![&matrix.components[0], &matrix.components[1]]
    );
    assert_eq!(sum_cols(&matrix), vec![0, 0]);
}

#[test]
fn coupling_counts_stressors_acting_on_both() {
    let stressors = vec![
        stressor("s1", None, &["a", "b", "c"]),
        stressor("s2", None, &["a", "c"]),
        stressor("s3", None, &["b"]),
    ];
    let matrix = generate_incidence_matrix(
        stressors,
        vec![component("a", None), component("b", None), component("c", None)],
    );
    let c = &matrix.components;
    // (a,b)=1, (a,c)=2, (b,c)=1: mean 4/3, rounded down 1.
    assert_eq!(
        analyze_coupling(&matrix),
        vec![(&c[0], &c[2], 2), (&c[0], &c[1], 1), (&c[1], &c[2], 1)]
    );
}

#[test]
fn row_total_counts_only_ids_that_name_a_component() {
    let matrix = generate_incidence_matrix(
        vec![
            stressor("s1", None, &["a", "ghost", "c", "zz"]),
            stressor("s2", None, &["nothing"]),
        ],
        vec![component("a", None), component("b", None), component("c", None)],
    );
    assert_eq!(sum_rows(&matrix), vec![2, 0]);
}

#[test]
fn small_matrix_fits_in_u32_sums() {
    let matrix = generate_incidence_matrix(
        vec![stressor("s1", None, &["a", "b"]), stressor("s2", None, &["b"])],
        vec![component("a", None), component("b", None)],
    );
    assert!(links_fit_u32(&matrix));
    assert!(coupling_fits_u32(&matrix));
    assert!(sums_fit_u32(&matrix));
}

#[test]
fn empty_matrix_fits_in_u32_sums() {
    let matrix = generate_incidence_matrix(vec![], vec![]);
    assert!(links_fit_u32(&matrix));
    assert!(coupling_fits_u32(&matrix));
    assert!(sums_fit_u32(&matrix));
}
