use ce_fleet::daemon::{
    accepted, append_root, check_request, mint_reply, mint_terms, roots_list, DaemonState,
    MintError, Received, Waited, DECISION_TIMEOUT_SECS,
};
use ce_fleet::pair::{conclude, REQUEST_TIMEOUT_MS};
use ce_fleet::proto::{PairRequest, PairResponse, TOPIC};
use ce_fleet::util::NodeIdError;

const ID: &str = "00112233445566778899aabbccddeeff00112233445566778899AABBCCDDEEFF";

fn request(from: &str) -> PairRequest {
    PairRequest {
        from_node: from.to_string(),
        label: "laptop".to_string(),
        abilities: vec!["exec".to_string(), "sync".to_string()],
        ttl_secs: 60,
        want_roots: false,
        nonce: 777,
    }
}

fn reason(r: &PairResponse) -> String {
    match r {
        PairResponse::Denied { reason } => reason.clone(),
        other => panic!("{:?}", other),
    }
}

#[test]
fn requests_are_refused_in_order() {
    let bad = Err("expected value".to_string());
    assert_eq!(reason(&check_request("other", "a", bad).unwrap_err()), "wrong topic");
    let bad = Err("expected value".to_string());
    assert_eq!(reason(&check_request(TOPIC, "a", bad).unwrap_err()), "bad request: expected value");
    assert_eq!(
        reason(&check_request(TOPIC, "a", Ok(request("b"))).unwrap_err()),
        "sender identity mismatch"
    );
    let mut none = request("a");
    none.abilities.clear();
    assert_eq!(reason(&check_request(TOPIC, "a", Ok(none)).unwrap_err()), "no abilities requested");
    assert_eq!(check_request(TOPIC, "a", Ok(request("a"))).unwrap().from_node, "a");
}

#[test]
fn refused_requests_are_not_parked() {
    let mut st: DaemonState<u8> = DaemonState::new();
    match st.receive("other", "a", Ok(request("a")), 5, 9) {
        Received::Reply(r) => assert_eq!(reason(&r), "wrong topic"),
        other => panic!("{:?}", other),
    }
    assert!(st.snapshot(5).is_empty());
}

#[test]
fn parked_requests_are_decided_once() {
    let mut st: DaemonState<u8> = DaemonState::new();
    let id = match st.receive(TOPIC, "a", Ok(request("a")), 100, 9) {
        Received::Parked { id, request } => {
            assert_eq!(request.label, "laptop");
            id
        }
        other => panic!("{:?}", other),
    };
    assert_eq!(id, 1);
    assert_eq!(st.snapshot(130)[0].age_secs, 30);
    assert_eq!(st.snapshot(90)[0].age_secs, 0);
    assert_eq!(st.decide(7), None);
    assert_eq!(st.decide(id), Some(9));
    assert_eq!(st.decide(id), None);
    assert!(st.snapshot(130).is_empty());
    assert!(st.settle(id, Waited::Decided(true)).is_none());
    assert_eq!(st.decide(id), None);
}

#[test]
fn snapshot_is_ordered_by_id() {
    let mut st: DaemonState<u8> = DaemonState::new();
    for i in 0..20u64 {
        let id = st.park(request(&format!("n{i}")), i, 0);
        assert_eq!(id, i + 1);
    }
    st.decide(4);
    st.settle(10, Waited::TimedOut);
    let ids: Vec<u64> = st.snapshot(50).iter().map(|p| p.id).collect();
    let expected: Vec<u64> = (1..=20).filter(|i| *i != 4 && *i != 10).collect();
    assert_eq!(ids, expected);
    let first = &st.snapshot(50)[0];
    assert_eq!(first.from_node, "n0");
    assert_eq!(first.abilities, vec!["exec".to_string(), "sync".to_string()]);
    assert_eq!((first.ttl_secs, first.want_roots, first.age_secs), (60, false, 50));
}

#[test]
fn only_acceptance_leads_on() {
    for w in [Waited::Decided(false), Waited::Dropped, Waited::TimedOut] {
        let mut st: DaemonState<u8> = DaemonState::new();
        let id = st.park(request("a"), 0, 0);
        assert_eq!(reason(&st.settle(id, w).unwrap()), "denied or timed out");
        assert!(st.snapshot(0).is_empty());
    }
}

#[test]
fn terms_follow_the_request() {
    let mut pr = request(ID);
    let t = mint_terms(&pr, 1_000).unwrap();
    assert_eq!(t.audience[0], 0x00);
    assert_eq!(t.audience[1], 0x11);
    assert_eq!(t.audience[31], 0xff);
    assert_eq!(t.abilities, pr.abilities);
    assert_eq!((t.not_after, t.nonce), (1_060, 777));
    pr.ttl_secs = 0;
    assert_eq!(mint_terms(&pr, 1_000).unwrap().not_after, 0);
    pr.from_node = "abcd".to_string();
    assert_eq!(mint_terms(&pr, 1_000).unwrap_err(), MintError::NodeId(NodeIdError::Length));
}

#[test]
fn lifetimes_beyond_the_counter_are_refused() {
    let mut pr = request(ID);
    pr.ttl_secs = u64::MAX - 1_000;
    assert_eq!(mint_terms(&pr, 1_000).unwrap().not_after, u64::MAX);
    pr.ttl_secs = u64::MAX;
    assert_eq!(mint_terms(&pr, 0).unwrap().not_after, u64::MAX);
    let e = mint_terms(&pr, 1_000).unwrap_err();
    assert_eq!(e, MintError::LifetimeTooLong);
    assert_eq!(reason(&mint_reply(Err(e))), "mint failed: lifetime too long");
    pr.from_node = "abcd".to_string();
    assert_eq!(mint_terms(&pr, 1_000).unwrap_err(), MintError::NodeId(NodeIdError::Length));
}

#[test]
fn parked_requests_are_numbered_over_a_run() {
    let mut st: DaemonState<u8> = DaemonState::new();
    let mut ids = Vec::new();
    for (i, from) in ["a", "b", "c", "d", "e"].iter().enumerate() {
        let sender: &str = if i % 2 == 0 { from } else { "nobody" };
        if let Received::Parked { id, .. } = st.receive(TOPIC, sender, Ok(request(from)), 0, 0) {
            ids.push(id);
            st.decide(id);
            assert!(st.settle(id, Waited::Decided(true)).is_none());
        }
    }
    assert_eq!(ids, [1, 2, 3]);
}

#[test]
fn failed_mints_are_answered() {
    let r = mint_reply(Err(MintError::NodeId(NodeIdError::Length)));
    assert_eq!(reason(&r), "mint failed: node id must be 32 bytes (64 hex chars)");
    let mut pr = request("xyz");
    pr.ttl_secs = 0;
    let r = mint_reply(mint_terms(&pr, 5).map(|t| {
        accepted(t, "t".to_string(), "i".to_string(), "l".to_string(), None)
    }));
    assert_eq!(reason(&r), "mint failed: invalid node id hex: Odd number of digits");
}

#[test]
fn granted_capability_reaches_the_wallet_of_the_asker() {
    let mut pr = request(ID);
    pr.want_roots = true;
    let terms = mint_terms(&pr, 500).unwrap();
    let answer = accepted(terms, "cafe".to_string(), "b0b".to_string(), "My Box".to_string(), Some(true));
    let c = conclude(mint_reply(Ok(answer)));
    assert!(c.outcome.accepted && c.outcome.rooted);
    assert_eq!(c.outcome.granted, pr.abilities);
    assert_eq!(c.outcome.not_after, 560);
    assert_eq!(c.outcome.issuer.as_deref(), Some("b0b"));
    let w = c.store.unwrap();
    assert_eq!((w.alias.as_str(), w.node_id.as_str(), w.cap.as_str()), ("my-box", "b0b", "cafe"));
}

#[test]
fn roots_are_reported_only_where_asked_and_written() {
    for (want, appended, rooted) in [
        (true, Some(true), true),
        (true, Some(false), false),
        (true, None, false),
        (false, Some(true), false),
        (false, None, false),
    ] {
        let mut pr = request(ID);
        pr.want_roots = want;
        let t = mint_terms(&pr, 0).unwrap();
        let o = conclude(accepted(t, "t".to_string(), "i".to_string(), "l".to_string(), appended));
        assert_eq!(o.outcome.rooted, rooted);
    }
}

#[test]
fn the_asker_waits_longer_than_the_daemon() {
    assert!(DECISION_TIMEOUT_SECS * 1000 < REQUEST_TIMEOUT_MS);
    assert_eq!((DECISION_TIMEOUT_SECS, REQUEST_TIMEOUT_MS), (170, 180_000));
}

#[test]
fn roots_file_is_read_line_by_line() {
    let text = "# owners\n  aaa  # first\r\nbbb\r\n\n#ccc\nddd";
    for id in ["aaa", "bbb", "ddd", ""] {
        assert!(roots_list(text, id), "{}", id);
    }
    for id in ["ccc", "aa", "# owners", " aaa", "bbb\r"] {
        assert!(!roots_list(text, id), "{}", id);
    }
    assert!(!roots_list("", ""));
    assert!(roots_list("\n", ""));
    assert!(!roots_list("aaa\n", ""));
}

#[test]
fn roots_match_the_lines_of_the_standard_library() {
    let texts = ["", "a", "a\n", "a\r\n", "a\r", "\n\n", "a#b\nc", "a\u{2028}b\n", " \u{a0}a\t\n#\n", "a\rb\n"];
    let ids = ["", "a", "b", "c", "a\rb", "a\u{2028}b"];
    for t in texts {
        for id in ids {
            let expected = t.lines().any(|l| l.split('#').next().unwrap_or("").trim() == id);
            assert_eq!(roots_list(t, id), expected, "{:?} {:?}", t, id);
        }
    }
}

#[test]
fn a_root_is_appended_once() {
    let first = append_root(None, ID);
    assert_eq!(first.append.as_deref(), Some(format!("{ID}\n").as_str()));
    assert!(first.listed);
    let second = append_root(first.append, ID);
    assert!(second.append.is_none());
    assert!(second.listed);
    let third = append_root(Some("aaa\n".to_string()), "bbb");
    assert_eq!(third.append.as_deref(), Some("bbb\n"));
    assert!(third.listed);
    assert!(roots_list("aaa\nbbb\n", "aaa"));
}

#[test]
fn an_unended_last_line_is_ended_first() {
    let u = append_root(Some("aa".to_string()), "bb");
    assert_eq!(u.append.as_deref(), Some("\nbb\n"));
    assert!(u.listed);
    let grown = format!("aa{}", u.append.unwrap());
    assert_eq!(grown.lines().collect::<Vec<_>>(), ["aa", "bb"]);
    assert!(roots_list(&grown, "aa") && roots_list(&grown, "bb"));
    let u = append_root(Some("aa # first\r".to_string()), "bb");
    assert_eq!(u.append.as_deref(), Some("\nbb\n"));
    assert!(u.listed);
}

#[test]
fn a_root_is_looked_up_as_given_and_listed_without_white_space() {
    let u = append_root(Some("aa\n".to_string()), " aa ");
    assert_eq!(u.append.as_deref(), Some(" aa \n"));
    assert!(u.listed);
    let u = append_root(Some("aa\n".to_string()), " bb\t");
    assert_eq!(u.append.as_deref(), Some(" bb\t\n"));
    assert!(u.listed);
    let u = append_root(None, "\n bb \r\n");
    assert!(u.listed);
    assert!(roots_list(&u.append.unwrap(), "bb"));
}

#[test]
fn what_no_line_can_list_is_reported_so() {
    let u = append_root(Some("aa\n".to_string()), "b#b");
    assert_eq!(u.append.as_deref(), Some("b#b\n"));
    assert!(!u.listed);
}
