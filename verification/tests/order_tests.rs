use windfire::order::{compare_strings, sort_dedup, Order};

fn s(v: &[&str]) -> Vec<String> {
    v.iter().map(|x| x.to_string()).collect()
}

#[test]
fn sorts_and_dedups_like_std() {
    let input = s(&["b", "a", "b", "", "ab", "é", "z", "a"]);
    let mut expected = input.clone();
    expected.sort();
    expected.dedup();
    assert_eq!(sort_dedup(input), expected);
}

#[test]
fn sorts_many() {
    let mut input = Vec::new();
    for i in 0..200u32 {
        input.push(format!("{}", (i * 37) % 101));
    }
    let mut expected = input.clone();
    expected.sort();
    expected.dedup();
    assert_eq!(sort_dedup(input), expected);
}

#[test]
fn comparison() {
    assert_eq!(compare_strings(&"a".to_string(), &"b".to_string()), Order::Less);
    assert_eq!(compare_strings(&"b".to_string(), &"a".to_string()), Order::Greater);
    assert_eq!(compare_strings(&"ab".to_string(), &"ab".to_string()), Order::Equal);
    assert_eq!(compare_strings(&"a".to_string(), &"ab".to_string()), Order::Less);
    assert_eq!(compare_strings(&"z".to_string(), &"é".to_string()), Order::Less);
}
