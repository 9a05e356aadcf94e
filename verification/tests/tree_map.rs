use minihttp::Tree;

#[test]
fn tree_insert() {
    let mut tree = Tree::new();
    tree.insert(String::from("username"), String::from("John Smith"));
    tree.insert(String::from("email"), String::from("johnsmith@email.com"));
    tree.insert(String::from("password"), String::from("password123"));
    assert!(tree.root.is_some());
    assert_eq!(tree.height(), 2);
    assert_eq!(
        tree.get(&String::from("email")),
        Some(&String::from("johnsmith@email.com"))
    );
}

#[test]
fn tree_get_missing() {
    let mut tree = Tree::new();
    tree.insert(String::from("a"), 1u32);
    assert_eq!(tree.get(&String::from("b")), None);
}

#[test]
fn tree_numeric_keys_balance() {
    let mut tree = Tree::new();
    let mut k: u64 = 0;
    while k < 7 {
        tree.insert(k, k * 10);
        k += 1;
    }
    // Seven ascending inserts into a balanced tree stand three levels tall.
    assert_eq!(tree.height(), 3);
    let mut k: u64 = 0;
    while k < 7 {
        assert_eq!(tree.get(&k), Some(&(k * 10)));
        k += 1;
    }
    assert_eq!(tree.get(&7), None);
}

#[test]
fn tree_descending_inserts() {
    let mut tree = Tree::new();
    let mut k: u64 = 16;
    while k > 0 {
        tree.insert(k, ());
        k -= 1;
    }
    assert_eq!(tree.height(), 5);
    assert_eq!(tree.get(&1), Some(&()));
    assert_eq!(tree.get(&16), Some(&()));
    assert_eq!(tree.get(&0), None);
}
