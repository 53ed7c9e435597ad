use ce_fleet::rollup::{
    delivered_work_of, AtlasEntry, MeshSource, NodeHistory, Role, RollupAggregator, RollupError, SourceError,
    SubtreeRollup,
};

struct FakeSource {
    atlas: Vec<AtlasEntry>,
}

impl MeshSource for FakeSource {
    fn atlas(&self) -> Result<Vec<AtlasEntry>, SourceError> {
        Ok(self.atlas.clone())
    }
    fn history(&self, _node_id: &str) -> Result<Option<NodeHistory>, SourceError> {
        Ok(None)
    }
}

/// Knows the work of `a`, fails for `b`, and knows nothing of the rest.
struct PatchySource {
    atlas: Vec<AtlasEntry>,
}

impl MeshSource for PatchySource {
    fn atlas(&self) -> Result<Vec<AtlasEntry>, SourceError> {
        Ok(self.atlas.clone())
    }
    fn history(&self, node_id: &str) -> Result<Option<NodeHistory>, SourceError> {
        match node_id {
            "a" => Ok(Some(NodeHistory { delivered_work: 42 })),
            "b" => Err(SourceError { message: "stale".to_string() }),
            _ => Ok(None),
        }
    }
}

struct DeadSource;

impl MeshSource for DeadSource {
    fn atlas(&self) -> Result<Vec<AtlasEntry>, SourceError> {
        Err(SourceError { message: "node down".to_string() })
    }
    fn history(&self, _node_id: &str) -> Result<Option<NodeHistory>, SourceError> {
        Ok(None)
    }
}

fn entry(id: &str, tags: &[&str], jobs: u32, last_seen: u64) -> AtlasEntry {
    AtlasEntry {
        node_id: id.to_string(),
        cpu_cores: 8,
        mem_mb: 16000,
        running_jobs: jobs,
        last_seen_secs: last_seen,
        tags: tags.iter().map(|t| t.to_string()).collect(),
    }
}

#[test]
fn classifies_worker_idle_router_offline() {
    let src = FakeSource {
        atlas: vec![
            entry("a", &["infer", "tier:GpuMid", "model:clinical-chat-8b"], 3, 10),
            entry("b", &["infer", "tier:CpuLow"], 0, 20),
            entry("c", &["relay"], 0, 5),
            entry("d", &["infer"], 1, 9_999), // stale, so offline despite running a job
        ],
    };
    let agg = RollupAggregator::new(src, 180);
    let r = agg.rollup().expect("rollup");
    assert_eq!(r.total, 4);
    assert_eq!(r.workers, 1);
    assert_eq!(r.idle, 1);
    assert_eq!(r.routers, 1);
    assert_eq!(r.offline, 1);
    assert_eq!(r.running_jobs, 3);

    let a = r.nodes.iter().find(|n| n.node_id == "a").expect("a");
    assert_eq!(a.role, Role::Worker);
    assert_eq!(a.tier.as_deref(), Some("GpuMid"));
    assert_eq!(a.model.as_deref(), Some("clinical-chat-8b"));
}

#[test]
fn failed_history_leaves_the_node_in() {
    let atlas = vec![
        entry("a", &["infer"], 2, 0),
        entry("b", &["infer"], 5, 0),
        entry("c", &[], 0, 0),
    ];
    let r = RollupAggregator::new(PatchySource { atlas }, 60).rollup().expect("rollup");
    let work: Vec<Option<u64>> = r.nodes.iter().map(|n| n.delivered_work).collect();
    assert_eq!(work, vec![Some(42), None, None]);
    assert_eq!(r.total, 3);
    assert_eq!(r.running_jobs, 7);
    assert_eq!(r.workers + r.idle + r.routers + r.offline, r.total);
}

#[test]
fn unreadable_atlas_is_an_error() {
    match RollupAggregator::new(DeadSource, 60).rollup() {
        Err(RollupError::Source(e)) => assert_eq!(e.message, "node down"),
        other => panic!("{:?}", other),
    }
}

#[test]
fn default_rollup_counts_nothing() {
    let r = SubtreeRollup::default();
    assert_eq!((r.total, r.workers, r.idle, r.routers, r.offline), (0, 0, 0, 0, 0));
    assert_eq!(r.running_jobs, 0);
    assert!(r.nodes.is_empty());
}

#[test]
fn empty_atlas_rolls_up_to_nothing() {
    let r = RollupAggregator::new(FakeSource { atlas: vec![] }, 60).rollup().expect("rollup");
    assert_eq!(r.total, 0);
    assert_eq!(r.running_jobs, 0);
    assert!(r.nodes.is_empty());
}

#[test]
fn freshness_window_is_inclusive() {
    let agg = RollupAggregator::new((), 180);
    assert_eq!(agg.classify(&entry("n", &["infer"], 1, 180), None).role, Role::Worker);
    assert_eq!(agg.classify(&entry("n", &["infer"], 1, 181), None).role, Role::Offline);
}

#[test]
fn first_matching_tag_wins() {
    let agg = RollupAggregator::new((), 10);
    let v = agg.classify(&entry("n", &["tie", "tier:", "tier:x", "model:m:1", "inferx"], 1, 0), Some(7));
    assert_eq!(v.tier.as_deref(), Some(""));
    assert_eq!(v.model.as_deref(), Some("m:1"));
    assert_eq!(v.role, Role::Router);
    assert_eq!(v.delivered_work, Some(7));
    assert_eq!(v.tags.len(), 5);
}

#[test]
fn entries_roll_up_without_a_source() {
    let agg = RollupAggregator::new((), 10);
    let atlas = vec![entry("x", &["infer"], 4, 1), entry("y", &["infer"], 6, 99)];
    let r = agg.rollup_entries(&atlas, &vec![None, Some(1)]);
    assert_eq!((r.total, r.workers, r.offline, r.running_jobs), (2, 1, 1, 4));
    assert_eq!(r.nodes[1].delivered_work, Some(1));
}

#[test]
fn failed_reads_tell_of_no_work() {
    assert_eq!(delivered_work_of::<u8>(Ok(Some(5))), Some(5));
    assert_eq!(delivered_work_of::<u8>(Ok(None)), None);
    assert_eq!(delivered_work_of::<u8>(Err(1)), None);
}
