use lucid_runtime::compare::Comparand;
use lucid_runtime::integer::Integer;
use lucid_runtime::sorting::sorted_positions;

fn int_items(values: &[i64]) -> Vec<Comparand> {
    values.iter().map(|v| Comparand::Integer(Integer::Int(*v))).collect()
}

#[test]
fn sorted_orders_integers() {
    let items = int_items(&[3, 1, 2]);
    assert_eq!(sorted_positions(&items), vec![1, 2, 0]);
}

#[test]
fn sorted_keeps_equal_items_in_place() {
    let items = int_items(&[2, 1, 2, 1]);
    assert_eq!(sorted_positions(&items), vec![1, 3, 0, 2]);
}

#[test]
fn sorted_orders_strings_by_bytes() {
    let items: Vec<Comparand> = ["pear", "apple", "Zebra", "app"].iter().map(|s| Comparand::Text(s.to_string())).collect();
    assert_eq!(sorted_positions(&items), vec![2, 3, 1, 0]);
}

#[test]
fn sorted_of_nothing_is_empty() {
    assert_eq!(sorted_positions(&[]), Vec::<usize>::new());
}

#[test]
fn sorted_never_moves_values_past_unordered_ones() {
    let items = vec![
        Comparand::Integer(Integer::Int(5)),
        Comparand::Text("a".to_string()),
        Comparand::Integer(Integer::Int(1)),
    ];
    assert_eq!(sorted_positions(&items), vec![0, 1, 2]);
    let items = vec![
        Comparand::Integer(Integer::Int(5)),
        Comparand::Integer(Integer::Int(1)),
        Comparand::Other("list".to_string()),
    ];
    assert_eq!(sorted_positions(&items), vec![1, 0, 2]);
}
