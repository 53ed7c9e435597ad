use ce_fleet::pair::{
    abilities_or_default, alias_of_lowercase, conclude, pair_request, report, terms_or_default,
    wallet_alias, PairOutcome,
};
use ce_fleet::proto::{default_abilities, PairResponse};

#[test]
fn default_abilities_are_the_full_set() {
    let expected = [
        "status", "exec", "sync", "delete", "tunnel", "deploy", "kill", "spawn", "app:install",
    ];
    assert_eq!(default_abilities(), expected);
}

#[test]
fn denied_holds_its_reason() {
    match PairResponse::denied("no") {
        PairResponse::Denied { reason } => assert_eq!(reason, "no"),
        other => panic!("{:?}", other),
    }
}

#[test]
fn requests_hold_what_is_asked() {
    let r = pair_request("me".to_string(), "box", vec!["exec".to_string()], 7, true, 99);
    assert_eq!(r.from_node, "me");
    assert_eq!(r.label, "box");
    assert_eq!(r.abilities, ["exec"]);
    assert_eq!((r.ttl_secs, r.want_roots, r.nonce), (7, true, 99));
    let c = r.clone();
    assert_eq!(c.abilities, r.abilities);
    assert_eq!((c.from_node, c.label), (r.from_node, r.label));
}

#[test]
fn what_is_left_open_gets_defaults() {
    assert_eq!(abilities_or_default(vec![]), default_abilities());
    assert_eq!(abilities_or_default(vec!["kill".to_string()]), ["kill"]);
    assert_eq!(terms_or_default(None, None), (default_abilities(), 0));
    let (a, t) = terms_or_default(Some(vec![]), Some(5));
    assert!(a.is_empty());
    assert_eq!(t, 5);
}

/// The alias by repeated replacement, as the standard library does it.
fn replaced(label: &str, id: &str) -> String {
    let mut s: String = label
        .trim()
        .to_lowercase()
        .chars()
        .map(|c| if c.is_ascii_alphanumeric() { c } else { '-' })
        .collect();
    while s.contains("--") {
        s = s.replace("--", "-");
    }
    let s = s.trim_matches('-').to_string();
    if s.is_empty() {
        id.chars().take(12).collect()
    } else {
        s
    }
}

#[test]
fn aliases_are_lowercase_words() {
    let id = "0123456789abcdef";
    assert_eq!(wallet_alias("  Leif's MacBook Pro  ", id), "leif-s-macbook-pro");
    assert_eq!(wallet_alias("---", id), "0123456789ab");
    assert_eq!(wallet_alias("", "abc"), "abc");
    assert_eq!(wallet_alias("\u{212a}2", id), "k2");
    for l in [
        "a", "-a-", "A--B", "a---b----c", "\u{c4}pfel", "\u{3a3}\u{3a3}", "\u{130}x", "x_y.z", "\u{a0}q\u{a0}",
        "----", "9", "Z9-", "\u{4f60}\u{597d}", "tab\tname", "\u{2003}Em\u{2003}",
    ] {
        assert_eq!(wallet_alias(l, id), replaced(l, id), "{:?}", l);
    }
}

#[test]
fn every_character_gives_the_expected_alias() {
    for c in (0..=0x10ffffu32).filter_map(char::from_u32) {
        if c as u32 > 0x3000 && c as u32 % 37 != 0 {
            continue;
        }
        let label = format!("x{c}Y");
        let alias = wallet_alias(&label, "id");
        assert_eq!(alias, replaced(&label, "id"), "{:?}", c);
        assert!(alias.chars().all(|a| a == '-' || a.is_ascii_digit() || a.is_ascii_lowercase()));
    }
}

#[test]
fn lowercased_labels_give_aliases() {
    assert_eq!(alias_of_lowercase("a  b", "id"), "a-b");
    assert_eq!(alias_of_lowercase("!", "abcdefghijklmnop"), "abcdefghijkl");
}

#[test]
fn denials_store_nothing() {
    let c = conclude(PairResponse::denied("denied or timed out"));
    assert!(!c.outcome.accepted);
    assert_eq!(c.outcome.reason.as_deref(), Some("denied or timed out"));
    assert!(c.outcome.alias.is_none() && c.outcome.issuer.is_none());
    assert!(c.outcome.granted.is_empty());
    assert!(c.store.is_none());
    assert_eq!(report(&c.outcome), ["Not paired: denied or timed out"]);
}

#[test]
fn outcomes_are_reported() {
    let mut o = PairOutcome {
        accepted: true,
        alias: Some("box".to_string()),
        issuer: Some("b".to_string()),
        granted: vec!["exec".to_string(), "sync".to_string()],
        not_after: 0,
        rooted: false,
        reason: None,
    };
    assert_eq!(
        report(&o),
        [
            "Paired. Capability stored in wallet as 'box'.",
            "  abilities: exec, sync",
            "  expires:   never",
        ]
    );
    o.not_after = 1_700_000_000;
    o.rooted = true;
    o.alias = None;
    o.granted.clear();
    assert_eq!(
        report(&o),
        [
            "Paired. Capability stored in wallet as ''.",
            "  abilities: ",
            "  expires:   unix 1700000000",
            "  also added to the peer's roots (effective after its ce restart).",
        ]
    );
    o.accepted = false;
    assert_eq!(report(&o), ["Not paired: declined"]);
}

#[test]
fn responses_are_cloned_whole() {
    let a = PairResponse::Accepted {
        token: "t".to_string(),
        granted: vec!["x".to_string()],
        not_after: 3,
        issuer: "i".to_string(),
        issuer_label: "l".to_string(),
        rooted: true,
    };
    assert_eq!(format!("{:?}", a.clone()), format!("{:?}", a));
}

#[test]
fn an_alias_is_its_own_alias() {
    let id = "00ab34cd56ef7890";
    for label in ["My  Box!", "--", "", "h\u{e9}llo w\u{f6}rld", "a-b", " \u{130}X "] {
        let a = wallet_alias(label, id);
        assert_eq!(wallet_alias(&a, id), a, "{:?}", label);
    }
}

#[test]
fn case_and_white_space_around_a_label_do_not_matter() {
    let id = "00ab34cd56ef7890";
    let sigmas = ["a\u{3a3}b", "a\u{3a3}", "\u{3a3}a", "a\u{3a3}.b c", "\u{130}a\u{212a}Z"];
    for label in ["My Box", "h\u{e9}llo World", "x", "?!"].into_iter().chain(sigmas) {
        let a = wallet_alias(label, id);
        assert_eq!(wallet_alias(&label.to_ascii_uppercase(), id), a);
        assert_eq!(wallet_alias(&label.to_ascii_lowercase(), id), a);
        assert_eq!(wallet_alias(&format!("\u{2003}\t{label}\r\n\u{a0}"), id), a);
    }
}
