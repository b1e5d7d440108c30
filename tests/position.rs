use octool::position::{ConfigDocument, DocNode, Position, PositionError};

fn node(key: &str, children: Vec<usize>) -> DocNode {
    DocNode { key: key.to_string(), children }
}

// top: "#Disabled" {x}, "Kernel" {Add {Item}, #Block, Quirks}
fn sample_doc() -> ConfigDocument {
    ConfigDocument {
        top: vec![0, 1],
        nodes: vec![
            node("#Disabled", vec![2]),
            node("Kernel", vec![3, 4, 5]),
            node("x", vec![]),
            node("Add", vec![6]),
            node("#Block", vec![]),
            node("Quirks", vec![]),
            node("Item", vec![]),
        ],
    }
}

fn fresh() -> Position {
    Position::new("release".to_string(), vec!["KernelAdd".to_string()], "config.plist".to_string())
}

#[test]
fn bind_skips_marker_keys() {
    let doc = sample_doc();
    assert!(doc.is_well_formed());
    let mut p = fresh();
    assert!(p.bind(&doc).is_ok());
    assert_eq!(p.sec_num, vec![1]);
    assert_eq!(p.sec_length, vec![2]);
    assert_eq!(p.build_type, "release");
    assert_eq!(p.config_file_name, "config.plist");
}

#[test]
fn bind_all_markers_is_empty_document() {
    let doc = ConfigDocument { top: vec![0, 1], nodes: vec![node("#A", vec![]), node("#B", vec![])] };
    let mut p = fresh();
    assert!(matches!(p.bind(&doc), Err(PositionError::EmptyDocument)));
    assert!(p.sec_num.is_empty());
    assert!(p.sec_length.is_empty());
}

#[test]
fn bind_empty_is_empty_document() {
    let doc = ConfigDocument { top: vec![], nodes: vec![] };
    let mut p = fresh();
    assert!(matches!(p.bind(&doc), Err(PositionError::EmptyDocument)));
}

#[test]
fn advance_skips_markers_and_saturates() {
    let doc = sample_doc();
    let mut p = fresh();
    p.bind(&doc).ok().unwrap();
    p.enter(&doc, 0).ok().unwrap();
    assert_eq!(p.sec_num, vec![1, 0]);
    assert_eq!(p.sec_length, vec![2, 3]);
    p.advance(&doc, 1);
    assert_eq!(p.sec_num, vec![1, 2]);
    for _ in 0..5 {
        p.advance(&doc, 1);
    }
    assert_eq!(p.sec_num, vec![1, 2]);
    assert_eq!(p.sec_length, vec![2, 3]);
}

#[test]
fn advance_at_last_top_key_is_noop() {
    let doc = sample_doc();
    let mut p = fresh();
    p.bind(&doc).ok().unwrap();
    p.advance(&doc, 0);
    assert_eq!(p.sec_num, vec![1]);
    p.advance(&doc, 7);
    assert_eq!(p.sec_num, vec![1]);
}

#[test]
fn retreat_skips_markers_and_saturates() {
    let doc = sample_doc();
    let mut p = fresh();
    p.bind(&doc).ok().unwrap();
    p.retreat(&doc, 0);
    assert_eq!(p.sec_num, vec![1]);
    p.enter(&doc, 0).ok().unwrap();
    p.advance(&doc, 1);
    p.retreat(&doc, 1);
    assert_eq!(p.sec_num, vec![1, 0]);
    p.retreat(&doc, 1);
    assert_eq!(p.sec_num, vec![1, 0]);
}

#[test]
fn enter_and_exit_nested_levels() {
    let doc = sample_doc();
    let mut p = fresh();
    p.bind(&doc).ok().unwrap();
    p.enter(&doc, 0).ok().unwrap();
    p.enter(&doc, 1).ok().unwrap();
    assert_eq!(p.sec_num, vec![1, 0, 0]);
    assert_eq!(p.sec_length, vec![2, 3, 1]);
    p.exit(&doc, 2);
    assert_eq!(p.sec_num, vec![1, 0]);
    assert_eq!(p.sec_length, vec![2, 3]);
    p.exit(&doc, 0);
    assert_eq!(p.sec_num, vec![1, 0]);
    p.exit(&doc, 1);
    assert_eq!(p.sec_num, vec![1]);
}

#[test]
fn advance_drops_deeper_levels() {
    let doc = sample_doc();
    let mut p = fresh();
    p.bind(&doc).ok().unwrap();
    p.enter(&doc, 0).ok().unwrap();
    p.enter(&doc, 1).ok().unwrap();
    p.advance(&doc, 1);
    assert_eq!(p.sec_num, vec![1, 2]);
    assert_eq!(p.sec_length, vec![2, 3]);
}

#[test]
fn enter_leaf_is_not_navigable() {
    let doc = sample_doc();
    let mut p = fresh();
    p.bind(&doc).ok().unwrap();
    p.enter(&doc, 0).ok().unwrap();
    p.advance(&doc, 1);
    assert!(matches!(p.enter(&doc, 1), Err(PositionError::NotNavigable)));
    assert_eq!(p.sec_num, vec![1, 2]);
    assert!(matches!(p.enter(&doc, 5), Err(PositionError::NotNavigable)));
    assert_eq!(p.sec_length, vec![2, 3]);
}

#[test]
fn dangling_index_is_not_well_formed() {
    let doc = ConfigDocument { top: vec![0], nodes: vec![node("A", vec![3])] };
    assert!(!doc.is_well_formed());
    let doc = ConfigDocument { top: vec![1], nodes: vec![node("A", vec![])] };
    assert!(!doc.is_well_formed());
}
