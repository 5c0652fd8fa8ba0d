use tars_db::{
    page_bounds, Column, DataType, ImportError, TarsEngine, ToggleStatus, EXCLUDED, POSSIBLE,
    SELECTED, TOP_VALUES,
};

fn city_engine() -> TarsEngine {
    let mut e = TarsEngine::new();
    assert_eq!(e.load_csv_data("City\nAnkara\nIzmir\nAnkara\n"), Ok(3));
    e
}

fn two_field_engine() -> TarsEngine {
    let mut e = TarsEngine::new();
    let csv = "City,Department\nAnkara,IT\nIzmir,IK\nAnkara,IK\nBursa,IT\n";
    assert_eq!(e.load_csv_data(csv), Ok(4));
    e
}

#[test]
fn city_scenario() {
    let mut e = city_engine();
    assert_eq!(e.query_global_count("City", "Ankara"), 2);
    assert_eq!(e.toggle_selection("City", "Ankara"), ToggleStatus::Updated);
    assert_eq!(e.get_state("City", "Ankara"), SELECTED);
    // no other field constrains City, so Izmir stays reachable
    assert_eq!(e.get_state("City", "Izmir"), POSSIBLE);
    assert_eq!(e.get_total_filtered(), 2);
    assert_eq!(e.toggle_selection("City", "Ankara"), ToggleStatus::Cleared);
    assert_eq!(e.get_state("City", "Izmir"), POSSIBLE);
    assert_eq!(e.get_total_filtered(), 3);
}

#[test]
fn other_field_excludes() {
    let mut e = two_field_engine();
    assert_eq!(e.toggle_selection("Department", "IT"), ToggleStatus::Updated);
    assert_eq!(e.get_state("City", "Izmir"), EXCLUDED);
    assert_eq!(e.get_state("City", "Ankara"), POSSIBLE);
    assert_eq!(e.get_state("City", "Bursa"), POSSIBLE);
    assert_eq!(e.get_state("Department", "IT"), SELECTED);
    assert_eq!(e.get_state("Department", "IK"), POSSIBLE);
    assert_eq!(e.query_count("City", "Ankara"), 1);
    assert_eq!(e.query_count("City", "Izmir"), 0);
    assert_eq!(e.query_global_count("City", "Ankara"), 2);
    assert_eq!(e.get_total_filtered(), 2);
}

#[test]
fn unknown_names_are_harmless() {
    let mut e = two_field_engine();
    assert_eq!(e.toggle_selection("Country", "TR"), ToggleStatus::FieldNotFound);
    assert_eq!(e.toggle_selection("City", "Konya"), ToggleStatus::ValueNotFound);
    assert_eq!(e.get_state("Country", "TR"), EXCLUDED);
    assert_eq!(e.get_state("City", "Konya"), EXCLUDED);
    assert_eq!(e.query_count("Country", "TR"), 0);
    assert_eq!(e.query_global_count("City", "Konya"), 0);
    assert_eq!(e.get_total_filtered(), 4);
}

#[test]
fn multi_value_selection_in_one_field() {
    let mut e = two_field_engine();
    assert_eq!(e.toggle_selection("City", "Ankara"), ToggleStatus::Updated);
    assert_eq!(e.toggle_selection("City", "Bursa"), ToggleStatus::Updated);
    assert_eq!(e.get_total_filtered(), 3);
    assert_eq!(e.get_state("City", "Bursa"), SELECTED);
    assert_eq!(e.get_state("City", "Izmir"), POSSIBLE);
    assert_eq!(e.get_state("Department", "IK"), POSSIBLE);
    assert_eq!(e.query_count("Department", "IK"), 1);
    assert_eq!(e.toggle_selection("City", "Ankara"), ToggleStatus::Updated);
    assert_eq!(e.get_total_filtered(), 1);
}

#[test]
fn toggle_twice_restores_selection() {
    let mut e = two_field_engine();
    assert_eq!(e.toggle_selection("Department", "IK"), ToggleStatus::Updated);
    let before = e.get_total_filtered();
    assert_eq!(e.toggle_selection("City", "Izmir"), ToggleStatus::Updated);
    assert_eq!(e.get_total_filtered(), 1);
    assert_eq!(e.toggle_selection("City", "Izmir"), ToggleStatus::Cleared);
    assert_eq!(e.get_total_filtered(), before);
    assert_eq!(e.get_state("City", "Bursa"), EXCLUDED);
    assert_eq!(e.get_state("City", "Izmir"), POSSIBLE);
}

#[test]
fn selected_value_is_never_excluded() {
    let mut e = two_field_engine();
    assert_eq!(e.toggle_selection("City", "Bursa"), ToggleStatus::Updated);
    assert_eq!(e.toggle_selection("Department", "IK"), ToggleStatus::Updated);
    assert_eq!(e.get_total_filtered(), 0);
    assert_eq!(e.get_state("City", "Bursa"), SELECTED);
    assert_eq!(e.get_state("Department", "IK"), SELECTED);
}

#[test]
fn more_selections_never_raise_total() {
    let mut e = two_field_engine();
    let t0 = e.get_total_filtered();
    e.toggle_selection("City", "Ankara");
    let t1 = e.get_total_filtered();
    e.toggle_selection("Department", "IK");
    let t2 = e.get_total_filtered();
    assert_eq!((t0, t1, t2), (4, 2, 1));
    assert!(t2 <= t1 && t1 <= t0);
}

#[test]
fn dictionary_assigns_ids_in_first_seen_order() {
    let mut c = Column::new();
    c.insert("b", 0);
    c.insert("a", 1);
    c.insert("b", 2);
    assert_eq!(c.reverse_symbol, vec!["b".to_string(), "a".to_string()]);
    assert_eq!(c.data, vec![0, 1, 0]);
    assert_eq!(c.bitmaps.len(), 2);
    assert_eq!(c.bitmaps[0].iter().collect::<Vec<u32>>(), vec![0, 2]);
    assert_eq!(c.bitmaps[1].iter().collect::<Vec<u32>>(), vec![1]);
    assert_eq!(c.col_type, DataType::Utf8);
}

#[test]
fn bitmaps_partition_the_rows() {
    let mut c = Column::new();
    for (i, v) in ["x", "y", "x", "z", "y"].iter().enumerate() {
        c.insert(v, i as u32);
    }
    assert_eq!(c.symbol_count(), 3);
    let mut all: Vec<u32> = (0..c.symbol_count()).flat_map(|i| c.symbol_rows(i)).collect();
    all.sort();
    assert_eq!(all, vec![0, 1, 2, 3, 4]);
    assert_eq!(c.symbol_rows(1), vec![1, 4]);
    assert!(Column::from_parts(c.to_parts(), 5).is_some());
    assert!(Column::from_parts(c.to_parts(), 4).is_none());
}

#[test]
fn invalid_parts_are_refused() {
    let mut c = Column::new();
    c.insert("x", 0);
    c.insert("y", 1);
    let mut p = c.to_parts();
    p.rows[1].push(0);
    assert!(Column::from_parts(p, 2).is_none());
    let mut p = c.to_parts();
    p.reverse_symbol[1] = "x".to_string();
    assert!(Column::from_parts(p, 2).is_none());
    let mut p = c.to_parts();
    p.data.push(7);
    assert!(Column::from_parts(p, 2).is_none());
    let mut p = c.to_parts();
    p.rows.pop();
    assert!(Column::from_parts(p, 2).is_none());
    let p = c.to_parts();
    let rebuilt = Column::from_parts(p, 2).unwrap();
    assert_eq!(rebuilt.symbol_rows(0), vec![0]);
    assert_eq!(rebuilt.symbol_rows(1), vec![1]);
}

#[test]
fn empty_csv_loads_nothing() {
    let mut e = TarsEngine::new();
    assert_eq!(e.load_csv_data(""), Ok(0));
    assert_eq!(e.row_count(), 0);
    assert!(e.get_column_names().is_empty());
    assert_eq!(e.get_total_filtered(), 0);
}

#[test]
fn csv_ragged_records() {
    let mut e = TarsEngine::new();
    assert_eq!(e.load_csv_data("A,B\n1,2\n3\n4,5\n"), Ok(2));
    assert_eq!(e.row_count(), 2);
    assert_eq!(e.query_global_count("A", "4"), 1);
    assert_eq!(e.cell_value("B", 1), Some("5".to_string()));
}

#[test]
fn csv_duplicate_header_keeps_first_column() {
    let mut e = TarsEngine::new();
    assert_eq!(e.load_csv_data("A,A\n1,2\n"), Ok(1));
    assert_eq!(e.query_global_count("A", "1"), 1);
    assert_eq!(e.query_global_count("A", "2"), 0);
}

#[test]
fn column_names_and_top_values() {
    let mut e = TarsEngine::new();
    let mut csv = String::from("N,M\n");
    for i in 0..20 {
        csv.push_str(&format!("v{},w\n", i));
    }
    assert_eq!(e.load_csv_data(&csv), Ok(20));
    assert_eq!(e.get_column_names(), vec!["N".to_string(), "M".to_string()]);
    let top = e.get_top_values("N");
    assert_eq!(top.len(), TOP_VALUES);
    assert_eq!(top[0], "v0");
    assert_eq!(top[14], "v14");
    assert_eq!(e.get_top_values("M"), vec!["w".to_string()]);
    assert!(e.get_top_values("Z").is_empty());
}

#[test]
fn random_rows_use_sample_values() {
    let mut e = TarsEngine::new();
    e.load_random_data(50);
    assert_eq!(e.row_count(), 50);
    assert_eq!(e.get_total_filtered(), 50);
    let cities = ["Istanbul", "Ankara", "Izmir", "Antalya", "Bursa"];
    let total: u32 = cities.iter().map(|c| e.query_global_count("City", c)).sum();
    assert_eq!(total, 50);
    let depts = ["IT", "IK", "Satis", "Finans"];
    let total: u32 = depts.iter().map(|d| e.query_global_count("Department", d)).sum();
    assert_eq!(total, 50);
}

#[test]
fn sample_row_is_exact() {
    let mut e = TarsEngine::new();
    e.append_sample_row(4, 3);
    assert_eq!(e.query_global_count("City", "Bursa"), 1);
    assert_eq!(e.query_global_count("Department", "Finans"), 1);
}

#[test]
fn export_import_round_trip() {
    let mut e = two_field_engine();
    e.toggle_selection("City", "Ankara");
    let (names, cols, rows) = e.export_db();
    let r = match TarsEngine::import_db(names, cols, rows) {
        Ok(r) => r,
        Err(_) => panic!("exported store refused"),
    };
    assert_eq!(r.get_total_filtered(), 4);
    for (f, v) in [("City", "Ankara"), ("City", "Izmir"), ("Department", "IK"), ("City", "Bursa")] {
        assert_eq!(r.query_global_count(f, v), e.query_global_count(f, v));
        assert_eq!(r.query_count(f, v), e.query_global_count(f, v));
        assert_eq!(r.get_state(f, v), POSSIBLE);
    }
}

#[test]
fn import_refuses_malformed_store() {
    let e = two_field_engine();
    let (names, cols, _) = e.export_db();
    assert!(matches!(TarsEngine::import_db(names, cols, 3), Err(ImportError::Malformed)));
    let (mut names, cols, rows) = e.export_db();
    names[1] = names[0].clone();
    assert!(matches!(TarsEngine::import_db(names, cols, rows), Err(ImportError::Malformed)));
    let (mut names, cols, rows) = e.export_db();
    names.pop();
    assert!(matches!(TarsEngine::import_db(names, cols, rows), Err(ImportError::Malformed)));
}

#[test]
fn filtered_rows_and_pages() {
    let mut e = two_field_engine();
    assert_eq!(e.filtered_rows(), vec![0, 1, 2, 3]);
    e.toggle_selection("Department", "IK");
    assert_eq!(e.filtered_rows(), vec![1, 2]);
    assert_eq!(page_bounds(10, 3, 4), (3, 7));
    assert_eq!(page_bounds(10, 8, 4), (8, 10));
    assert_eq!(page_bounds(10, 12, 4), (10, 10));
    assert_eq!(page_bounds(10, 0, usize::MAX), (0, 10));
}

#[test]
fn cell_values_and_types() {
    let mut e = two_field_engine();
    assert_eq!(e.cell_value("Department", 2), Some("IK".to_string()));
    assert_eq!(e.cell_value("Department", 9), None);
    assert_eq!(e.cell_value("Country", 0), None);
    assert!(e.set_column_type("City", DataType::Integer, 3, 4));
    assert!(!e.set_column_type("Country", DataType::Integer, 3, 4));
    assert_eq!(e.query_global_count("City", "Ankara"), 2);
}

#[test]
fn detects_integer_column() {
    let mut e = TarsEngine::new();
    assert_eq!(e.load_csv_data("N,S\n12,abc\n7,x\n30,y\n"), Ok(3));
    let samples = e.type_samples("N");
    assert_eq!(samples.len(), 3);
    assert!(e.classify_column("N", &vec![true, true, true]));
    assert!(!e.classify_column("N", &vec![true, true, true]));
    assert!(!e.classify_column("S", &vec![true]));
    assert!(e.classify_column("S", &vec![false, false, false]));
}

#[test]
fn numeric_form_normalises_separators() {
    assert_eq!(tars_db::sniffer::numeric_form(" 1.234,5 "), "1234.5");
    assert_eq!(tars_db::sniffer::numeric_form("12"), "12");
}

#[test]
fn detect_types_by_majority() {
    let s = |v: &[&str]| v.iter().map(|x| x.to_string()).collect::<Vec<String>>();
    let d = tars_db::sniffer::detect_column_type;
    assert_eq!(d(&s(&["1", "2", "3", "4", "x"]), &vec![true, true, true, true, false]), (DataType::Integer, 4, 5));
    assert_eq!(d(&s(&["2024-01-02", "2023-12-31"]), &vec![false, false]), (DataType::Date, 2, 2));
    assert_eq!(d(&s(&["a@b.com", "c@d.org", "zz"]), &vec![false, false, false]), (DataType::Utf8, 0, 3));
    assert_eq!(d(&s(&["true", "FALSE", "evet", " null "]), &vec![false, false, false, false]), (DataType::Utf8, 0, 4));
    assert_eq!(d(&s(&["true", "FALSE", "evet", "0", " null "]), &vec![false; 5]), (DataType::Boolean, 4, 5));
    assert_eq!(d(&s(&["1,5", "2.000,25"]), &vec![true, true]), (DataType::Float, 2, 2));
    assert_eq!(d(&s(&["%5", "%7"]), &vec![true, true]), (DataType::Percentage, 2, 2));
    assert_eq!(d(&s(&["http://a", "https://b"]), &vec![false, false]), (DataType::Url, 2, 2));
    assert_eq!(d(&s(&["10.0.0.1", "192.168.1.1"]), &vec![true, true]), (DataType::Float, 2, 2));
    assert_eq!(d(&s(&[]), &vec![]), (DataType::Utf8, 0, 0));
}

#[test]
fn numeric_form_trims_unicode_white_space() {
    assert_eq!(tars_db::sniffer::numeric_form("\u{00A0}\t1.234,5\u{3000}\n"), "1234.5");
    assert_eq!(tars_db::sniffer::numeric_form(" \u{2003} "), "");
    assert_eq!(tars_db::sniffer::numeric_form("a b"), "a b");
}

#[test]
fn classify_all_columns_in_store_order() {
    let mut e = TarsEngine::new();
    assert_eq!(e.load_csv_data("N,S,D\n12,abc,2024-01-02\n7,x,2024-02-03\n"), Ok(2));
    e.classify_columns(&vec![vec![true, true], vec![false, false]]);
    assert_eq!(e.get_column_names(), vec!["N".to_string(), "S".to_string(), "D".to_string()]);
    assert!(!e.classify_column("N", &vec![true, true]));
    // no type reached four fifths of the samples of S, so it stays Utf8
    assert!(e.classify_column("S", &vec![false, false]));
    assert!(e.classify_column("D", &vec![false, false]));
    assert!(!e.classify_column("D", &vec![false, false]));
}

#[test]
fn toggle_keeps_counts_and_store() {
    let mut e = two_field_engine();
    let before = e.export_db();
    e.toggle_selection("City", "Izmir");
    e.toggle_selection("Department", "IT");
    assert_eq!(e.query_global_count("City", "Ankara"), 2);
    assert_eq!(e.row_count(), 4);
    let after = e.export_db();
    assert_eq!(before.0, after.0);
    assert_eq!(before.2, after.2);
    for (a, b) in before.1.iter().zip(after.1.iter()) {
        assert_eq!(a.reverse_symbol, b.reverse_symbol);
        assert_eq!(a.data, b.data);
        assert_eq!(a.rows, b.rows);
    }
}

#[test]
fn toggles_commute() {
    let mut a = two_field_engine();
    a.toggle_selection("City", "Ankara");
    a.toggle_selection("Department", "IK");
    let mut b = two_field_engine();
    b.toggle_selection("Department", "IK");
    b.toggle_selection("City", "Ankara");
    assert_eq!(a.filtered_rows(), b.filtered_rows());
    for (f, v) in [("City", "Ankara"), ("City", "Izmir"), ("Department", "IT"), ("Department", "IK")] {
        assert_eq!(a.get_state(f, v), b.get_state(f, v));
        assert_eq!(a.query_count(f, v), b.query_count(f, v));
    }
}

#[test]
fn sample_scoring_on_given_facts() {
    let no = vec![false; 7];
    let r = tars_db::sniffer::score_sample("1", "1", &no, true);
    assert_eq!(r, vec![false, true, true, false, false, false, false, false, false, false]);
    let r = tars_db::sniffer::score_sample("NULL", "null", &no, false);
    assert_eq!(r, vec![false; 10]);
    let mut m = vec![false; 7];
    m[2] = true;
    let r = tars_db::sniffer::score_sample("$5", "$5", &m, true);
    assert_eq!(r[4], true);
    assert_eq!(r[2], false);
}

#[test]
fn ties_go_to_the_earlier_type() {
    // "1" and "0" score for both Boolean and Integer; Boolean comes first
    let counts = vec![0, 2, 2, 0, 0, 0, 0, 0, 0, 0];
    assert_eq!(tars_db::sniffer::pick_type(&counts, 2), (DataType::Boolean, 2));
    let counts = vec![0, 1, 2, 0, 0, 0, 0, 0, 0, 0];
    assert_eq!(tars_db::sniffer::pick_type(&counts, 2), (DataType::Integer, 2));
    let counts = vec![3, 0, 0, 0, 0, 0, 0, 0, 0, 0];
    assert_eq!(tars_db::sniffer::pick_type(&counts, 3), (DataType::Date, 3));
    // three of four is under four fifths
    assert_eq!(tars_db::sniffer::pick_type(&counts, 4), (DataType::Utf8, 0));
}
