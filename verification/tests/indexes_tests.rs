use bin_diff::indexes::Indexes;

#[test]
fn iterator_test() {
    let mut ind = Indexes::new();
    ind.insert("line_1".to_string(), 0, 26);
    ind.insert("line_1/signature".to_string(), 0, 4);
    ind.insert("line_1/data".to_string(), 4, 22);
    ind.insert("line_1/data/part_a".to_string(), 4, 12);
    ind.insert("line_1/data/part_b".to_string(), 16, 6);
    ind.insert("text_data".to_string(), 26, 40);
    ind.insert("text_data/length".to_string(), 26, 2);
    ind.insert("text_data/data".to_string(), 28, 12);

    let mut len = 0;
    while let Some(_item) = ind.next() {
        len += 1;
    }

    assert_eq!(len, 8);
}

#[test]
fn get_non_nested_test() {
    let mut ind = Indexes::new();
    ind.insert("line_1".to_string(), 0, 26);
    ind.insert("line_1/signature".to_string(), 0, 4);
    ind.insert("line_1/data".to_string(), 4, 22);
    ind.insert("line_1/data/part_a".to_string(), 4, 12);
    ind.insert("line_1/data/part_b".to_string(), 16, 10);
    ind.insert("text_data".to_string(), 26, 40);
    ind.insert("text_data/length".to_string(), 26, 2);
    ind.insert("text_data/data".to_string(), 28, 12);

    let mut model = Indexes::new();
    model.insert("line_1/signature".to_string(), 0, 4);
    model.insert("line_1/data/part_a".to_string(), 4, 12);
    model.insert("line_1/data/part_b".to_string(), 16, 10);
    model.insert("text_data/length".to_string(), 26, 2);
    model.insert("text_data/data".to_string(), 28, 12);

    let ends = ind.get_ends();

    assert_eq!(ends, model);
}

#[test]
fn indexes_get_remove_test() {
    let mut ind = Indexes::new();
    ind.insert("header".to_string(), 0, 16);
    ind.insert("data".to_string(), 16, 32);
    assert!(ind.has("header"));
    assert!(!ind.has("footer"));
    assert_eq!(ind.get("data"), Some((16, 32)));
    assert_eq!(ind.get("footer"), None);
    assert!(ind.remove("header"));
    assert!(!ind.remove("header"));
    assert_eq!(ind.len(), 1);
}
