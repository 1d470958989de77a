use kartei::order::{compare_keys, stable_order};

fn key(parts: &[&str]) -> Vec<Vec<char>> {
    parts.iter().map(|p| p.chars().collect()).collect()
}

#[test]
fn keys_sort_text_by_text_keeping_ties_in_order() {
    let keys = vec![
        key(&["b", "x"]),
        key(&["a", "z"]),
        key(&["b", "a"]),
        key(&["a", "z"]),
        key(&["", "q"]),
    ];
    assert_eq!(stable_order(&keys), [4, 1, 3, 2, 0]);
}

#[test]
fn comparison_goes_by_code_point() {
    assert_eq!(compare_keys(&key(&["Z"]), &key(&["a"])), -1);
    assert_eq!(compare_keys(&key(&["é"]), &key(&["z"])), 1);
    assert_eq!(compare_keys(&key(&["ab"]), &key(&["a"])), 1);
    assert_eq!(compare_keys(&key(&["a", "b"]), &key(&["a", "b"])), 0);
}
