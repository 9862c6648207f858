use rhts::error::HtsError;
use rhts::hierarchy_spec::HtsSpec;
use rhts::hts::{join_label, render_label, Hts, MissingPolicy};
use rhts::order::Period;
use rhts::table::{Column, ColumnData, Table};

fn text(name: &str, v: &[&str]) -> Column {
    Column { name: name.to_string(), data: ColumnData::Text(v.iter().map(|s| s.to_string()).collect()) }
}

fn ints(name: &str, v: &[i64]) -> Column {
    Column { name: name.to_string(), data: ColumnData::Int(v.to_vec()) }
}

fn names(v: &[&str]) -> Vec<String> {
    v.iter().map(|s| s.to_string()).collect()
}

fn state_city_sector() -> HtsSpec {
    HtsSpec::new(names(&["State", "City"]), names(&["Sector"])).unwrap()
}

/// Two states with two cities each, two sectors, one period.
fn example_table() -> Table {
    let state = ["A", "A", "A", "A", "B", "B", "B", "B"];
    let city = ["A1", "A1", "A2", "A2", "B1", "B1", "B2", "B2"];
    let sector = ["Industry", "Agriculture", "Industry", "Agriculture", "Industry", "Agriculture", "Industry", "Agriculture"];
    let period = [1, 1, 1, 1, 1, 1, 1, 1];
    let value = [1000, 500, 150, 120, 2000, 800, 300, 200];
    Table::new(vec![
        text("State", &state),
        text("City", &city),
        text("Sector", &sector),
        ints("Quarter", &period),
        ints("Gdp", &value),
    ])
    .unwrap()
}

fn build(t: &Table, s: &HtsSpec) -> Result<Hts, HtsError> {
    Hts::new(t, s, &"Quarter".to_string(), &"Gdp".to_string())
}

fn label(parts: &[&str]) -> Vec<String> {
    names(parts)
}

#[test]
fn state_city_sector_counts() {
    let h = build(&example_table(), &state_city_sector()).unwrap();
    assert_eq!(h.n_bottom(), 8);
    // Total, 2 sectors, 2 states, 4 state x sector, 4 state x city, 8 bottom.
    assert_eq!(h.n_series(), 21);
    assert_eq!(h.n_periods(), 1);
}

#[test]
fn state_city_sector_nodes_in_canonical_order() {
    let h = build(&example_table(), &state_city_sector()).unwrap();
    let m = h.summation_matrix();
    let rows: Vec<Vec<String>> = m.row_labels.iter().map(render_label).collect();
    assert_eq!(rows[0], label(&["Total", "Total", "Total"]));
    assert_eq!(rows[1], label(&["Total", "Total", "Agriculture"]));
    assert_eq!(rows[2], label(&["Total", "Total", "Industry"]));
    assert_eq!(rows[3], label(&["A", "Total", "Total"]));
    assert_eq!(rows[4], label(&["B", "Total", "Total"]));
    assert_eq!(rows[5], label(&["A", "Total", "Agriculture"]));
    assert_eq!(rows[6], label(&["A", "Total", "Industry"]));
    assert_eq!(rows[7], label(&["B", "Total", "Agriculture"]));
    assert_eq!(rows[8], label(&["B", "Total", "Industry"]));
    assert_eq!(rows[9], label(&["A", "A1", "Total"]));
    assert_eq!(rows[12], label(&["B", "B2", "Total"]));
    assert_eq!(rows[13], label(&["A", "A1", "Agriculture"]));
    assert_eq!(rows[20], label(&["B", "B2", "Industry"]));
    assert_eq!(m.col_labels[0], label(&["A", "A1", "Industry"]));
    assert_eq!(m.col_labels[7], label(&["B", "B2", "Agriculture"]));
}

#[test]
fn total_equals_sum_of_bottom_values() {
    let h = build(&example_table(), &state_city_sector()).unwrap();
    let a = h.aggregated_series();
    assert_eq!(a.periods, vec![Period::Int(1)]);
    assert_eq!(a.values[0], vec![1000 + 500 + 150 + 120 + 2000 + 800 + 300 + 200]);
    // Sector Agriculture, state A, state A city A1.
    assert_eq!(a.values[1], vec![500 + 120 + 800 + 200]);
    assert_eq!(a.values[3], vec![1000 + 500 + 150 + 120]);
    assert_eq!(a.values[9], vec![1500]);
    assert_eq!(a.values[20], vec![300]);
}

#[test]
fn grand_total_row_is_all_ones() {
    let h = build(&example_table(), &state_city_sector()).unwrap();
    let m = h.summation_matrix();
    assert_eq!(m.matrix.len(), 21);
    assert!(m.matrix[0].iter().all(|&e| e == 1));
    assert_eq!(m.matrix[0].len(), 8);
}

#[test]
fn bottom_rows_form_identity() {
    let h = build(&example_table(), &state_city_sector()).unwrap();
    let m = h.summation_matrix();
    let first_bottom = h.n_series() - h.n_bottom();
    let mut seen = vec![false; h.n_bottom()];
    for r in first_bottom..h.n_series() {
        let ones: Vec<usize> = (0..h.n_bottom()).filter(|&c| m.matrix[r][c] == 1).collect();
        assert_eq!(ones.len(), 1);
        let c = ones[0];
        assert_eq!(render_label(&m.row_labels[r]), m.col_labels[c]);
        assert!(!seen[c]);
        seen[c] = true;
    }
    assert!(seen.iter().all(|&s| s));
}

#[test]
fn aggregates_match_matrix_times_bottom_values() {
    let state = ["A", "A", "A", "B", "B", "A", "A", "B"];
    let city = ["A1", "A2", "A1", "B1", "B1", "A1", "A2", "B1"];
    let sector = ["x", "x", "y", "x", "y", "x", "x", "y"];
    let period = [2, 2, 2, 2, 2, 1, 1, 1];
    let value = [5, 7, 11, 13, 17, 19, 23, 29];
    let t = Table::new(vec![
        text("State", &state),
        text("City", &city),
        text("Sector", &sector),
        ints("Quarter", &period),
        ints("Gdp", &value),
    ])
    .unwrap();
    let h = build(&t, &state_city_sector()).unwrap();
    let m = h.summation_matrix();
    let a = h.aggregated_series();
    assert_eq!(a.periods, vec![Period::Int(1), Period::Int(2)]);
    // bottom value of each key per period, straight from the rows
    let nb = h.n_bottom();
    for (p, period_value) in a.periods.iter().enumerate() {
        let mut bottom = vec![0i128; nb];
        for r in 0..value.len() {
            if Period::Int(period[r]) == *period_value {
                let key = vec![state[r].to_string(), city[r].to_string(), sector[r].to_string()];
                let b = m.col_labels.iter().position(|k| *k == key).unwrap();
                bottom[b] += value[r] as i128;
            }
        }
        for i in 0..h.n_series() {
            let expected: i128 = (0..nb).map(|b| m.matrix[i][b] as i128 * bottom[b]).sum();
            assert_eq!(a.values[i][p], expected);
        }
    }
    assert_eq!(a.values[0], vec![19 + 23 + 29, 5 + 7 + 11 + 13 + 17]);
}

#[test]
fn missing_bottom_observation_counts_as_zero() {
    let t = Table::new(vec![
        text("State", &["A", "A", "B"]),
        ints("Quarter", &[1, 2, 1]),
        ints("Gdp", &[10, 20, 30]),
    ])
    .unwrap();
    let s = HtsSpec::hierarchical(names(&["State"])).unwrap();
    let h = build(&t, &s).unwrap();
    let a = h.aggregated_series();
    assert_eq!(h.n_series(), 3);
    assert_eq!(a.values[0], vec![40, 20]);
    assert_eq!(a.values[2], vec![30, 0]);
}

#[test]
fn construction_is_deterministic() {
    let h1 = build(&example_table(), &state_city_sector()).unwrap();
    let h2 = build(&example_table(), &state_city_sector()).unwrap();
    assert_eq!(h1.n_series(), h2.n_series());
    let m1 = h1.summation_matrix();
    let m2 = h2.summation_matrix();
    assert_eq!(m1.matrix, m2.matrix);
    assert_eq!(m1.row_labels, m2.row_labels);
    assert_eq!(m1.col_labels, m2.col_labels);
    assert_eq!(h1.aggregated_series().values, h2.aggregated_series().values);
}

#[test]
fn city_under_two_states_is_inconsistent_nesting() {
    let t = Table::new(vec![
        text("State", &["A", "B"]),
        text("City", &["C", "C"]),
        text("Sector", &["x", "x"]),
        ints("Quarter", &[1, 1]),
        ints("Gdp", &[1, 2]),
    ])
    .unwrap();
    assert_eq!(build(&t, &state_city_sector()).err(), Some(HtsError::InconsistentNesting));
}

#[test]
fn repeated_key_and_period_is_duplicate_observation() {
    let t = Table::new(vec![
        text("State", &["A", "A"]),
        text("City", &["C", "C"]),
        text("Sector", &["x", "x"]),
        ints("Quarter", &[3, 3]),
        ints("Gdp", &[1, 2]),
    ])
    .unwrap();
    assert_eq!(build(&t, &state_city_sector()).err(), Some(HtsError::DuplicateObservation));
}

#[test]
fn absent_columns_are_missing() {
    let t = example_table();
    let s = HtsSpec::new(names(&["State", "Town"]), names(&["Sector"])).unwrap();
    assert_eq!(build(&t, &s).err(), Some(HtsError::MissingColumn));
    let r = Hts::new(&t, &state_city_sector(), &"Year".to_string(), &"Gdp".to_string());
    assert_eq!(r.err(), Some(HtsError::MissingColumn));
    let r = Hts::new(&t, &state_city_sector(), &"Quarter".to_string(), &"Sales".to_string());
    assert_eq!(r.err(), Some(HtsError::MissingColumn));
}

#[test]
fn text_value_column_is_unsupported() {
    let t = example_table();
    let r = Hts::new(&t, &state_city_sector(), &"Quarter".to_string(), &"City".to_string());
    assert_eq!(r.err(), Some(HtsError::UnsupportedColumnType));
}

#[test]
fn integer_key_columns_are_keyed_by_decimal_text() {
    let t = Table::new(vec![
        ints("Region", &[-12, -12, 7]),
        ints("Store", &[100, 101, 100]),
        ints("Quarter", &[1, 1, 1]),
        ints("Gdp", &[1, 2, 4]),
    ])
    .unwrap();
    let s = HtsSpec::new(names(&["Region"]), names(&["Store"])).unwrap();
    let h = build(&t, &s).unwrap();
    assert_eq!(h.n_bottom(), 3);
    let m = h.summation_matrix();
    assert_eq!(m.col_labels[0], label(&["-12", "100"]));
    assert_eq!(m.col_labels[2], label(&["7", "100"]));
    assert_eq!(h.aggregated_series().values[0], vec![7]);
}

#[test]
fn text_time_column_is_ordered_as_text() {
    let t = Table::new(vec![
        text("State", &["A", "A", "B", "B"]),
        text("Quarter", &["2024 Q2", "2024 Q1", "2024 Q1", "2023 Q4"]),
        ints("Gdp", &[20, 10, 30, 5]),
    ])
    .unwrap();
    let h = build(&t, &HtsSpec::hierarchical(names(&["State"])).unwrap()).unwrap();
    let p = |s: &str| Period::Text(s.to_string());
    assert_eq!(h.periods(), &vec![p("2023 Q4"), p("2024 Q1"), p("2024 Q2")]);
    let a = h.aggregated_series();
    assert_eq!(a.values[0], vec![5, 40, 20]);
}

#[test]
fn text_key_and_text_time_duplicate_is_detected() {
    let t = Table::new(vec![
        text("State", &["A", "A"]),
        text("Quarter", &["2024 Q1", "2024 Q1"]),
        ints("Gdp", &[1, 2]),
    ])
    .unwrap();
    let r = build(&t, &HtsSpec::hierarchical(names(&["State"])).unwrap());
    assert_eq!(r.err(), Some(HtsError::DuplicateObservation));
}

#[test]
fn grouped_only_structure() {
    let t = Table::new(vec![
        text("Product", &["p", "q", "p"]),
        text("Region", &["n", "n", "s"]),
        ints("Quarter", &[1, 1, 1]),
        ints("Gdp", &[2, 3, 5]),
    ])
    .unwrap();
    let s = HtsSpec::grouped(names(&["Product", "Region"])).unwrap();
    let h = build(&t, &s).unwrap();
    // Total; Product p, q; Region n, s; three bottom series.
    assert_eq!(h.n_bottom(), 3);
    assert_eq!(h.n_series(), 8);
    let a = h.aggregated_series();
    assert_eq!(a.values[0], vec![10]);
    let m = h.summation_matrix();
    assert_eq!(render_label(&m.row_labels[1]), label(&["Total", "n"]));
    assert_eq!(a.values[1], vec![5]);
    assert_eq!(render_label(&m.row_labels[3]), label(&["p", "Total"]));
    assert_eq!(a.values[3], vec![7]);
}

#[test]
fn periods_are_sorted_and_distinct() {
    let t = Table::new(vec![
        text("State", &["A", "A", "A", "B"]),
        ints("Quarter", &[30, -4, 7, 7]),
        ints("Gdp", &[1, 2, 3, 4]),
    ])
    .unwrap();
    let h = build(&t, &HtsSpec::hierarchical(names(&["State"])).unwrap()).unwrap();
    assert_eq!(h.periods(), &vec![Period::Int(-4), Period::Int(7), Period::Int(30)]);
    assert_eq!(h.n_periods(), 3);
    assert_eq!(h.aggregated_series().values[0], vec![2, 7, 1]);
}

#[test]
fn extreme_values_do_not_overflow() {
    let t = Table::new(vec![
        text("State", &["A", "B", "C"]),
        ints("Quarter", &[1, 1, 1]),
        ints("Gdp", &[i64::MAX, i64::MAX, i64::MAX]),
    ])
    .unwrap();
    let h = build(&t, &HtsSpec::hierarchical(names(&["State"])).unwrap()).unwrap();
    assert_eq!(h.aggregated_series().values[0], vec![3 * i64::MAX as i128]);
}

fn gappy() -> Hts {
    let t = Table::new(vec![
        text("State", &["A", "A", "B"]),
        ints("Quarter", &[1, 2, 1]),
        ints("Gdp", &[10, 20, 30]),
    ])
    .unwrap();
    build(&t, &HtsSpec::hierarchical(names(&["State"])).unwrap()).unwrap()
}

#[test]
fn fail_policy_reports_incomplete_series() {
    let h = gappy();
    assert!(!h.is_complete());
    assert_eq!(h.aggregate_all(MissingPolicy::Fail).err(), Some(HtsError::IncompleteSeries));
}

#[test]
fn zero_fill_policy_fills_gaps() {
    let h = gappy();
    let a = h.aggregate_all(MissingPolicy::ZeroFill).unwrap();
    assert_eq!(a.values[0], vec![40, 20]);
    assert_eq!(a.values[1], vec![10, 20]);
    assert_eq!(a.values[2], vec![30, 0]);
}

#[test]
fn fail_policy_accepts_complete_series() {
    let h = build(&example_table(), &state_city_sector()).unwrap();
    assert!(h.is_complete());
    let a = h.aggregate_all(MissingPolicy::Fail).unwrap();
    assert_eq!(a.values, h.aggregated_series().values);
}

#[test]
fn labels_join_with_slashes() {
    let h = build(&example_table(), &state_city_sector()).unwrap();
    let m = h.summation_matrix();
    assert_eq!(join_label(&render_label(&m.row_labels[0])), "Total/Total/Total");
    assert_eq!(join_label(&render_label(&m.row_labels[5])), "A/Total/Agriculture");
    assert_eq!(join_label(&m.col_labels[0]), "A/A1/Industry");
    assert_eq!(join_label(&vec![]), "");
    assert_eq!(join_label(&names(&["only"])), "only");
}

#[test]
fn aggregated_rows_carry_node_labels() {
    let h = build(&example_table(), &state_city_sector()).unwrap();
    let a = h.aggregated_series();
    let m = h.summation_matrix();
    assert_eq!(a.row_labels, m.row_labels);
    assert_eq!(a.row_labels.len(), 21);
    assert_eq!(a.row_labels[0], vec![None, None, None]);
    assert_eq!(a.row_labels[3], vec![Some("A".to_string()), None, None]);
    assert_eq!(a.values[3], vec![1770]);
    let b = h.aggregate_all(MissingPolicy::ZeroFill).unwrap();
    assert_eq!(b.row_labels, m.row_labels);
}

#[test]
fn a_key_named_total_keeps_labels_distinct() {
    let t = Table::new(vec![
        text("State", &["Total", "B"]),
        ints("Quarter", &[1, 1]),
        ints("Gdp", &[3, 4]),
    ])
    .unwrap();
    let h = build(&t, &HtsSpec::hierarchical(names(&["State"])).unwrap()).unwrap();
    let m = h.summation_matrix();
    assert_eq!(m.row_labels[0], vec![None]);
    assert_eq!(m.row_labels[1], vec![Some("B".to_string())]);
    assert_eq!(m.row_labels[2], vec![Some("Total".to_string())]);
    assert_ne!(m.row_labels[0], m.row_labels[2]);
    assert_eq!(h.aggregated_series().values[2], vec![3]);
}
