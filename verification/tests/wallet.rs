use ce_fleet::wallet::{add, Wallet};

fn aliases(w: &Wallet) -> Vec<String> {
    w.entries.iter().map(|e| e.alias.clone()).collect()
}

#[test]
fn a_new_wallet_is_empty() {
    assert!(Wallet::default().entries.is_empty());
}

#[test]
fn entries_stand_in_the_order_of_a_tree_map() {
    let names = ["mid", "zeta", "alpha", "a", "", "Z", "\u{e9}t\u{e9}", "\u{1F600}", "\u{ffff}", "ab"];
    let mut w = Wallet::default();
    let mut tree = std::collections::BTreeMap::new();
    for (i, n) in names.iter().enumerate() {
        let cap = format!("cap{i}");
        assert_eq!(add(&mut w, n, "node", &cap), *n);
        tree.insert(n.to_string(), cap);
    }
    let expected: Vec<String> = tree.keys().cloned().collect();
    assert_eq!(aliases(&w), expected);
    for e in &w.entries {
        assert_eq!(&e.entry.cap, &tree[&e.alias]);
    }
}

#[test]
fn adding_under_a_held_alias_replaces() {
    let mut w = Wallet::default();
    add(&mut w, "b", "n1", "c1");
    add(&mut w, "a", "n2", "c2");
    w.entries[1].entry.orgs.push("org".to_string());
    add(&mut w, "b", "n3", "c3");
    assert_eq!(aliases(&w), vec!["a".to_string(), "b".to_string()]);
    let b = &w.entries[1].entry;
    assert_eq!((b.node_id.as_str(), b.cap.as_str()), ("n3", "c3"));
    assert!(b.orgs.is_empty() && b.workspaces.is_empty());
    assert_eq!(w.entries[0].entry.cap, "c2");
}
