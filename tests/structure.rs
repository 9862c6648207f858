use rhts::error::HtsError;
use rhts::hierarchy_spec::HtsSpec;
use rhts::table::{Column, ColumnData, Table};

fn names(v: &[&str]) -> Vec<String> {
    v.iter().map(|s| s.to_string()).collect()
}

#[test]
fn empty_hierarchy_and_groups_are_invalid() {
    let r = HtsSpec::new(vec![], vec![]);
    assert_eq!(r.err(), Some(HtsError::InvalidSpecification));
}

#[test]
fn overlapping_columns_are_invalid() {
    let r = HtsSpec::new(names(&["State", "City"]), names(&["City"]));
    assert_eq!(r.err(), Some(HtsError::InvalidSpecification));
}

#[test]
fn disjoint_columns_are_valid() {
    let s = HtsSpec::new(names(&["State", "City"]), names(&["Sector"])).unwrap();
    assert_eq!(s.hierarchy(), &names(&["State", "City"]));
    assert_eq!(s.groups(), &names(&["Sector"]));
}

#[test]
fn hierarchical_has_no_groups() {
    let s = HtsSpec::hierarchical(names(&["State", "Region"])).unwrap();
    assert_eq!(s.hierarchy(), &names(&["State", "Region"]));
    assert!(s.groups().is_empty());
    assert_eq!(HtsSpec::hierarchical(vec![]).err(), Some(HtsError::InvalidSpecification));
}

#[test]
fn grouped_has_no_hierarchy() {
    let s = HtsSpec::grouped(names(&["Product", "Category"])).unwrap();
    assert!(s.hierarchy().is_empty());
    assert_eq!(s.groups(), &names(&["Product", "Category"]));
    assert_eq!(HtsSpec::grouped(vec![]).err(), Some(HtsError::InvalidSpecification));
}

#[test]
fn too_many_groups_are_invalid() {
    let many: Vec<String> = (0..64).map(|i| format!("g{}", i)).collect();
    assert_eq!(HtsSpec::grouped(many).err(), Some(HtsError::InvalidSpecification));
    let most: Vec<String> = (0..63).map(|i| format!("g{}", i)).collect();
    assert!(HtsSpec::grouped(most).is_ok());
}

#[test]
fn ragged_table_is_refused() {
    let a = Column { name: "a".to_string(), data: ColumnData::Int(vec![1, 2]) };
    let b = Column { name: "b".to_string(), data: ColumnData::Text(names(&["x"])) };
    assert!(Table::new(vec![a, b]).is_none());
}

#[test]
fn table_reports_rows_and_finds_first_column() {
    let a = Column { name: "a".to_string(), data: ColumnData::Int(vec![1, 2]) };
    let b = Column { name: "b".to_string(), data: ColumnData::Text(names(&["x", "y"])) };
    let a2 = Column { name: "a".to_string(), data: ColumnData::Int(vec![3, 4]) };
    let t = Table::new(vec![a, b, a2]).unwrap();
    assert_eq!(t.n_rows(), 2);
    assert_eq!(t.find_column(&"a".to_string()), Some(0));
    assert_eq!(t.find_column(&"b".to_string()), Some(1));
    assert_eq!(t.find_column(&"c".to_string()), None);
    assert_eq!(Table::new(vec![]).unwrap().n_rows(), 0);
}
