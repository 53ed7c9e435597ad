use ce_fleet::cli::{
    api_url, decide_line, list_nodes, node_table, parse_ttl, pending_list, read_target,
    resolved_target, ttl_of_lowercase, ui_addr, PendingRow, Target, TtlError,
};
use ce_fleet::rollup::AtlasEntry;
use ce_fleet::util::parse_node_id;

#[test]
fn lifetimes_are_read() {
    for (text, secs) in [
        ("90d", 7_776_000),
        ("24h", 86_400),
        ("30m", 1_800),
        ("3600s", 3_600),
        ("never", 0),
        ("0", 0),
        ("", 0),
        ("  NEVER ", 0),
        (" 2D\n", 172_800),
        ("45", 45),
        ("+5m", 300),
        ("007", 7),
        ("0d", 0),
        ("18446744073709551615", u64::MAX),
        ("18446744073709551615s", u64::MAX),
    ] {
        assert_eq!(parse_ttl(text).unwrap(), secs, "{}", text);
        assert_eq!(parse_ttl(&format!("\u{2003}{text}\u{a0}")).unwrap(), secs, "{}", text);
    }
}

#[test]
fn bad_lifetimes_are_told_apart() {
    match parse_ttl(" 5W ") {
        Err(TtlError::BadUnit { text }) => assert_eq!(text, "5w"),
        other => panic!("{:?}", other),
    }
    for t in ["d", "+d", "-5d", "1.5h", "1 d", "18446744073709551616", "x5", "+", "5+5", "nevers"] {
        match parse_ttl(t) {
            Err(TtlError::BadNumber { text }) => assert_eq!(text, t),
            Err(TtlError::BadUnit { text }) => assert_eq!((text.as_str(), t), ("+", "+")),
            other => panic!("{} {:?}", t, other),
        }
    }
    assert_eq!(
        parse_ttl("5w").unwrap_err().message(),
        "bad ttl '5w' (use 90d/24h/30m/3600s or never)"
    );
    assert_eq!(parse_ttl("Xd").unwrap_err().message(), "bad ttl number in 'xd'");
}

#[test]
fn lifetimes_that_do_not_fit_are_errors() {
    for t in ["18446744073709551615m", "213503982334602d", "5124095576030432h"] {
        match parse_ttl(t) {
            Err(TtlError::TooLong { text }) => assert_eq!(text, t),
            other => panic!("{} {:?}", t, other),
        }
    }
    assert_eq!(parse_ttl("213503982334602D").unwrap_err().message(), "ttl too long in '213503982334602d'");
    assert_eq!(parse_ttl("213503982334601d").unwrap(), 213_503_982_334_601 * 86_400);
    assert_eq!(ttl_of_lowercase("1h").unwrap(), 3_600);
}

#[test]
fn numbers_agree_with_the_standard_library() {
    for t in [
        "0", "1", "+1", "00", "9999999999999999999", "18446744073709551615", "18446744073709551616",
        "184467440737095516150", "", "+", "-1", " 1", "1_0", "\u{661}", "12a", "++1",
    ] {
        assert_eq!(ttl_of_lowercase(&format!("{t}s")).ok(), t.parse::<u64>().ok(), "{:?}", t);
    }
}

#[test]
fn targets_are_ids_or_names() {
    let id = "00112233445566778899AABBCCDDEEFF00112233445566778899aabbccddeeff";
    match read_target(&format!(" {id}\n")) {
        Target::Id(t) => {
            assert_eq!(t, id.to_lowercase());
            assert_eq!(parse_node_id(&t), parse_node_id(id));
            assert!(parse_node_id(&t).is_ok());
        }
        other => panic!("{:?}", other),
    }
    let g = id.replace('F', "g");
    for name in ["alice", &id[1..], g.as_str(), "\u{e9}\u{e9}"] {
        match read_target(&format!("  {name} ")) {
            Target::Name(n) => assert_eq!(n, name),
            other => panic!("{:?}", other),
        }
    }
}

#[test]
fn names_resolve_or_fail() {
    assert_eq!(resolved_target("alice", Some("abc".to_string())).unwrap(), "abc");
    assert_eq!(
        resolved_target("bob", None).unwrap_err().message(),
        "'bob' is neither a 64-hex node id nor a claimed name"
    );
}

fn entry(id: &str, last_seen: u64) -> AtlasEntry {
    AtlasEntry {
        node_id: id.to_string(),
        cpu_cores: 8,
        mem_mb: 16_384,
        running_jobs: 2,
        last_seen_secs: last_seen,
        tags: vec!["infer".to_string(), "gpu".to_string()],
    }
}

#[test]
fn nodes_are_listed() {
    let l = list_nodes(&vec![entry("a", 1), entry("b", 2)], "b");
    assert_eq!(l.len(), 2);
    assert!(!l[0].is_self && l[1].is_self);
    assert_eq!((l[0].cpu_cores, l[0].mem_mb, l[0].running_jobs, l[1].last_seen_secs), (8, 16_384, 2, 2));
    assert_eq!(l[0].tags, ["infer", "gpu"]);
}

#[test]
fn the_table_is_laid_out() {
    let long = "f".repeat(70);
    let mut big = entry(&long, 1_000);
    big.cpu_cores = 1_234_567;
    big.mem_mb = 1_023;
    big.tags.clear();
    let atlas = vec![entry("me", 0), entry("on", 881), entry("off", 880), entry("future", 5_000), big];
    let mut expected = vec![format!("{:<66}  {:>5}  {:>6}  TAGS", "NODE", "CPU", "MEM")];
    for e in &atlas {
        let mark = if e.node_id == "me" {
            " (this machine)"
        } else if 1_000u64.saturating_sub(e.last_seen_secs) < 120 {
            ""
        } else {
            " (offline)"
        };
        expected.push(format!(
            "{:<66}  {:>5}  {:>5}G  {}{}",
            e.node_id,
            e.cpu_cores,
            e.mem_mb / 1024,
            e.tags.join(","),
            mark
        ));
    }
    assert_eq!(node_table(&atlas, "me", 1_000), expected);
    assert!(expected[3].ends_with("infer,gpu (offline)"));
    assert!(expected[2].ends_with("infer,gpu"));
    assert_eq!(
        node_table(&vec![], "me", 0),
        ["No nodes seen yet. Make sure `ce start` is running."]
    );
}

#[test]
fn pending_requests_are_printed() {
    assert_eq!(pending_list(&vec![]), ["No pending pairing requests."]);
    let rows = vec![
        PendingRow {
            id: "3".to_string(),
            label: Some("laptop".to_string()),
            from_node: Some("ab".to_string()),
            abilities: Some(vec![Some("exec".to_string()), None, Some("sync".to_string())]),
        },
        PendingRow { id: "null".to_string(), label: None, from_node: None, abilities: None },
    ];
    assert_eq!(
        pending_list(&rows),
        [
            "[3] laptop (ab)\n     abilities: exec, sync\n",
            "[null] ? (?)\n     abilities: \n",
            "Accept with: ce-fleet accept <id>",
        ]
    );
}

#[test]
fn decisions_are_printed() {
    assert_eq!(decide_line(7, true, Some(true)), "Accepted request 7.");
    assert_eq!(decide_line(10, false, Some(true)), "Denied request 10.");
    for ok in [Some(false), None] {
        assert_eq!(
            decide_line(u64::MAX, true, ok),
            "No such pending request 18446744073709551615 (already decided or expired)."
        );
    }
}

#[test]
fn the_local_interface_is_on_the_loopback() {
    assert_eq!(ui_addr(8975), "127.0.0.1:8975");
    assert_eq!(api_url(80, "pending"), "http://127.0.0.1:80/api/pending");
}

#[test]
fn the_case_of_ascii_letters_never_shows() {
    let lowered = |t: &str| match parse_ttl(t) {
        Err(TtlError::BadUnit { text }) => text,
        other => panic!("{:?} {:?}", t, other),
    };
    for c in ('\0'..=char::MAX).filter(|c| !c.is_ascii()) {
        let t = format!("A{c}B A{c} {c}A{c}{c}Z A.{c}.B \u{3a3}A{c}\u{3a3} !");
        let text = lowered(&t);
        assert_eq!(text, t.to_lowercase());
        assert_eq!(text, lowered(&t.to_ascii_lowercase()));
    }
}
