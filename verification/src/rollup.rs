//! The fleet rollup: one view for each node that the mesh lists, and counters over all of them.
use vstd::prelude::*;
use vstd::string::*;

use crate::text::{chars_of, copy_texts, same_text, string_of, texts};
use crate::util::opt_text;

verus! {

/// The role that a node shows, inferred from its tags and its load.
#[derive(Debug, Clone, Copy, PartialEq, Eq, Structural)]
pub enum Role {
    /// Advertises `infer` and serves at least one job.
    Worker,
    /// Advertises `infer` and is idle.
    Idle,
    /// Meshed, without the `infer` tag.
    Router,
    /// Last seen longer ago than the freshness window.
    Offline,
}

/// One node as the mesh lists it.
#[derive(Debug)]
pub struct AtlasEntry {
    pub node_id: String,
    pub cpu_cores: u32,
    pub mem_mb: u32,
    pub running_jobs: u32,
    pub last_seen_secs: u64,
    pub tags: Vec<String>,
}

/// What an [`AtlasEntry`] says.
pub ghost struct AtlasEntryView {
    pub node_id: Seq<char>,
    pub cpu_cores: u32,
    pub mem_mb: u32,
    pub running_jobs: u32,
    pub last_seen_secs: u64,
    pub tags: Seq<Seq<char>>,
}

impl View for AtlasEntry {
    type V = AtlasEntryView;

    open spec fn view(&self) -> AtlasEntryView {
        AtlasEntryView {
            node_id: self.node_id@,
            cpu_cores: self.cpu_cores,
            mem_mb: self.mem_mb,
            running_jobs: self.running_jobs,
            last_seen_secs: self.last_seen_secs,
            tags: texts(self.tags@),
        }
    }
}

impl Clone for AtlasEntry {
    fn clone(&self) -> (r: Self)
        ensures
            r@ == self@,
            r.node_id@ == self.node_id@,
            r.cpu_cores == self.cpu_cores,
            r.mem_mb == self.mem_mb,
            r.running_jobs == self.running_jobs,
            r.last_seen_secs == self.last_seen_secs,
            r.tags@ == self.tags@,
    {
        AtlasEntry {
            node_id: self.node_id.clone(),
            cpu_cores: self.cpu_cores,
            mem_mb: self.mem_mb,
            running_jobs: self.running_jobs,
            last_seen_secs: self.last_seen_secs,
            tags: copy_texts(&self.tags),
        }
    }
}

impl AtlasEntry {
    /// Whether the node advertises `tag`.
    pub fn has_tag(&self, tag: &str) -> (r: bool)
        ensures
            r == self@.tags.contains(tag@),
            r <==> exists|i: int| 0 <= i < self.tags@.len() && (#[trigger] self.tags@[i])@ == tag@,
    {
        let mut i: usize = 0;
        while i < self.tags.len()
            invariant
                i <= self.tags@.len(),
                forall|j: int| 0 <= j < i ==> #[trigger] self@.tags[j] != tag@,
                forall|j: int| 0 <= j < i ==> (#[trigger] self.tags@[j])@ != tag@,
            decreases self.tags@.len() - i,
        {
            if same_text(self.tags[i].as_str(), tag) {
                assert(self@.tags[i as int] == tag@);
                return true;
            }
            i += 1;
        }
        false
    }
}

/// What is known of the work that a node delivered.
#[derive(Debug, Clone, Copy, PartialEq, Eq, Structural)]
pub struct NodeHistory {
    /// The work delivered.
    pub delivered_work: u64,
}

/// One node as the console shows it.
#[derive(Debug, Clone)]
pub struct NodeView {
    pub node_id: String,
    pub cpu_cores: u32,
    pub mem_mb: u32,
    pub running_jobs: u32,
    pub last_seen_secs: u64,
    pub tags: Vec<String>,
    /// What follows `tier:` in the first tag that begins so.
    pub tier: Option<String>,
    /// What follows `model:` in the first tag that begins so.
    pub model: Option<String>,
    pub role: Role,
    /// The work delivered, where it is known.
    pub delivered_work: Option<u64>,
}

/// What a [`NodeView`] says.
pub ghost struct NodeShown {
    pub node_id: Seq<char>,
    pub cpu_cores: u32,
    pub mem_mb: u32,
    pub running_jobs: u32,
    pub last_seen_secs: u64,
    pub tags: Seq<Seq<char>>,
    pub tier: Option<Seq<char>>,
    pub model: Option<Seq<char>>,
    pub role: Role,
    pub delivered_work: Option<u64>,
}

impl View for NodeView {
    type V = NodeShown;

    open spec fn view(&self) -> NodeShown {
        NodeShown {
            node_id: self.node_id@,
            cpu_cores: self.cpu_cores,
            mem_mb: self.mem_mb,
            running_jobs: self.running_jobs,
            last_seen_secs: self.last_seen_secs,
            tags: texts(self.tags@),
            tier: opt_text(self.tier),
            model: opt_text(self.model),
            role: self.role,
            delivered_work: self.delivered_work,
        }
    }
}

/// Counters over a subtree, with the nodes in it.
#[derive(Debug, Clone)]
pub struct SubtreeRollup {
    pub total: usize,
    pub workers: usize,
    pub idle: usize,
    pub routers: usize,
    pub offline: usize,
    /// The jobs that run on workers.
    pub running_jobs: u64,
    pub nodes: Vec<NodeView>,
}

/// Whether `s` begins with `prefix`.
pub open spec fn begins_with(s: Seq<char>, prefix: Seq<char>) -> bool {
    prefix.len() <= s.len() && s.take(prefix.len() as int) == prefix
}

/// What follows `prefix` in the first tag that begins with it.
pub open spec fn tag_value(tags: Seq<Seq<char>>, prefix: Seq<char>) -> Option<Seq<char>>
    decreases tags.len(),
{
    if tags.len() == 0 {
        None
    } else if begins_with(tags[0], prefix) {
        Some(tags[0].skip(prefix.len() as int))
    } else {
        tag_value(tags.skip(1), prefix)
    }
}

/// The role of a node, where one last seen more than `window` seconds ago is offline.
pub open spec fn role_of(e: AtlasEntryView, window: u64) -> Role {
    if e.last_seen_secs > window {
        Role::Offline
    } else if !e.tags.contains("infer"@) {
        Role::Router
    } else if e.running_jobs > 0 {
        Role::Worker
    } else {
        Role::Idle
    }
}

/// How the console shows a node.
pub open spec fn shown(e: AtlasEntryView, delivered_work: Option<u64>, window: u64) -> NodeShown {
    NodeShown {
        node_id: e.node_id,
        cpu_cores: e.cpu_cores,
        mem_mb: e.mem_mb,
        running_jobs: e.running_jobs,
        last_seen_secs: e.last_seen_secs,
        tags: e.tags,
        tier: tag_value(e.tags, "tier:"@),
        model: tag_value(e.tags, "model:"@),
        role: role_of(e, window),
        delivered_work,
    }
}

/// How many of the nodes have `role`.
pub open spec fn count_role(nodes: Seq<NodeShown>, role: Role) -> nat
    decreases nodes.len(),
{
    if nodes.len() == 0 {
        0
    } else {
        count_role(nodes.drop_last(), role) + if nodes.last().role == role {
            1nat
        } else {
            0nat
        }
    }
}

/// How many jobs run on the workers among the nodes.
pub open spec fn worker_jobs(nodes: Seq<NodeShown>) -> nat
    decreases nodes.len(),
{
    if nodes.len() == 0 {
        0
    } else {
        worker_jobs(nodes.drop_last()) + if nodes.last().role == Role::Worker {
            nodes.last().running_jobs as nat
        } else {
            0nat
        }
    }
}

/// What the nodes of a rollup say.
pub open spec fn shown_nodes(nodes: Seq<NodeView>) -> Seq<NodeShown> {
    nodes.map_values(|n: NodeView| n@)
}

impl SubtreeRollup {
    /// Whether the counters are those of the nodes.
    pub open spec fn consistent(&self) -> bool {
        let nodes = shown_nodes(self.nodes@);
        &&& self.total == nodes.len()
        &&& self.workers == count_role(nodes, Role::Worker)
        &&& self.idle == count_role(nodes, Role::Idle)
        &&& self.routers == count_role(nodes, Role::Router)
        &&& self.offline == count_role(nodes, Role::Offline)
        &&& self.running_jobs == worker_jobs(nodes)
    }
}

impl Default for SubtreeRollup {
    fn default() -> (r: Self)
        ensures
            r.nodes@.len() == 0,
            r.consistent(),
            r.total == 0 && r.workers == 0 && r.idle == 0 && r.routers == 0 && r.offline == 0,
            r.running_jobs == 0,
    {
        SubtreeRollup {
            total: 0,
            workers: 0,
            idle: 0,
            routers: 0,
            offline: 0,
            running_jobs: 0,
            nodes: Vec::new(),
        }
    }
}

/// Every node has one of the four roles: their counts add up to the number of nodes.
pub proof fn roles_partition(nodes: Seq<NodeShown>)
    ensures
        count_role(nodes, Role::Worker) + count_role(nodes, Role::Idle) + count_role(
            nodes,
            Role::Router,
        ) + count_role(nodes, Role::Offline) == nodes.len(),
    decreases nodes.len(),
{
    if nodes.len() > 0 {
        roles_partition(nodes.drop_last());
    }
}

/// A node last seen too long ago is offline, whatever it runs, and its jobs are not counted.
pub proof fn stale_nodes_are_offline(
    e: AtlasEntryView,
    delivered_work: Option<u64>,
    window: u64,
    nodes: Seq<NodeShown>,
)
    requires
        e.last_seen_secs > window,
    ensures
        ({
            let n = shown(e, delivered_work, window);
            &&& n.role == Role::Offline
            &&& worker_jobs(nodes.push(n)) == worker_jobs(nodes)
            &&& count_role(nodes.push(n), Role::Offline) == count_role(nodes, Role::Offline) + 1
        }),
{
    let n = shown(e, delivered_work, window);
    assert(nodes.push(n).drop_last() == nodes);
}

/// More nodes never run fewer jobs.
proof fn lemma_worker_jobs_grow(nodes: Seq<NodeShown>, k: int)
    requires
        0 <= k <= nodes.len(),
    ensures
        worker_jobs(nodes.take(k)) <= worker_jobs(nodes),
    decreases nodes.len() - k,
{
    if k < nodes.len() {
        assert(nodes.take(k + 1).drop_last() == nodes.take(k));
        lemma_worker_jobs_grow(nodes, k + 1);
    } else {
        assert(nodes.take(k) == nodes);
    }
}

/// What follows `prefix` in the first tag that begins with it.
fn find_tag_value(tags: &Vec<String>, prefix: &str) -> (r: Option<String>)
    ensures
        opt_text(r) == tag_value(texts(tags@), prefix@),
{
    let p = chars_of(prefix);
    let ghost t = texts(tags@);
    let mut i: usize = 0;
    assert(t.skip(0) == t);
    while i < tags.len()
        invariant
            i <= tags@.len(),
            t == texts(tags@),
            p@ == prefix@,
            tag_value(t, prefix@) == tag_value(t.skip(i as int), prefix@),
        decreases tags@.len() - i,
    {
        assert(t.skip(i as int)[0] == t[i as int]);
        assert(t.skip(i as int).skip(1) == t.skip(i + 1));
        let v = chars_of(tags[i].as_str());
        if p.len() <= v.len() && same_text(string_of(&v, 0, p.len()).as_str(), prefix) {
            assert(v@.subrange(0, p@.len() as int) == v@.take(p@.len() as int));
            assert(v@.subrange(p@.len() as int, v@.len() as int) == v@.skip(p@.len() as int));
            return Some(string_of(&v, p.len(), v.len()));
        }
        if p.len() <= v.len() {
            assert(v@.subrange(0, p@.len() as int) == v@.take(p@.len() as int));
        }
        i += 1;
    }
    None
}

/// The value of a tag is what follows the prefix in the first tag that has it.
pub proof fn tag_values_follow_their_prefix(tags: Seq<Seq<char>>, prefix: Seq<char>, i: int)
    requires
        0 <= i <= tags.len(),
        forall|j: int| 0 <= j < i ==> !prefix.is_prefix_of(#[trigger] tags[j]),
    ensures
        i == tags.len() ==> tag_value(tags, prefix) is None,
        i < tags.len() && prefix.is_prefix_of(tags[i]) ==> (tag_value(tags, prefix) matches Some(v)
            && tags[i] == prefix + v),
    decreases i,
{
    if tags.len() > 0 {
        let first = tags[0];
        if i > 0 {
            assert(!prefix.is_prefix_of(first));
            assert(begins_with(first, prefix) ==> first.subrange(0, prefix.len() as int) == prefix);
            let rest = tags.skip(1);
            assert forall|j: int| 0 <= j < i - 1 implies !prefix.is_prefix_of(
                #[trigger] rest[j],
            ) by {
                assert(rest[j] == tags[j + 1]);
            }
            tag_values_follow_their_prefix(rest, prefix, i - 1);
        } else if prefix.is_prefix_of(first) {
            assert(first.take(prefix.len() as int) == prefix);
            assert(first == prefix + first.skip(prefix.len() as int));
        }
    }
}

/// What a tag's value is among the tags of a node, as strings.
proof fn lemma_tag_of_strings(tags: Seq<String>, prefix: Seq<char>, value: Option<Seq<char>>)
    requires
        value == tag_value(texts(tags), prefix),
    ensures
        forall|i: int|
            0 <= i < tags.len() && prefix.is_prefix_of((#[trigger] tags[i])@) && (forall|j: int|
                0 <= j < i ==> !prefix.is_prefix_of((#[trigger] tags[j])@)) ==> (value matches Some(
                v,
            ) && tags[i]@ == prefix + v),
        (forall|i: int| 0 <= i < tags.len() ==> !prefix.is_prefix_of((#[trigger] tags[i])@))
            ==> value is None,
{
    let t = texts(tags);
    assert forall|i: int|
        0 <= i < tags.len() && prefix.is_prefix_of((#[trigger] tags[i])@) && (forall|j: int|
            0 <= j < i ==> !prefix.is_prefix_of((#[trigger] tags[j])@)) implies (value matches Some(
        v,
    ) && tags[i]@ == prefix + v) by {
        assert forall|j: int| 0 <= j < i implies !prefix.is_prefix_of(#[trigger] t[j]) by {
            assert(t[j] == tags[j]@);
        }
        tag_values_follow_their_prefix(t, prefix, i);
    }
    if forall|i: int| 0 <= i < tags.len() ==> !prefix.is_prefix_of((#[trigger] tags[i])@) {
        assert forall|j: int| 0 <= j < t.len() implies !prefix.is_prefix_of(#[trigger] t[j]) by {
            assert(t[j] == tags[j]@);
        }
        tag_values_follow_their_prefix(t, prefix, t.len() as int);
    }
}

/// Counting the nodes with a role counts those that the role picks out.
proof fn lemma_count_role_is(nodes: Seq<NodeView>, role: Role)
    ensures
        count_role(shown_nodes(nodes), role) == nodes.filter(|n: NodeView| n.role == role).len(),
    decreases nodes.len(),
{
    reveal(Seq::filter);
    if nodes.len() > 0 {
        assert(shown_nodes(nodes).drop_last() == shown_nodes(nodes.drop_last()));
        lemma_count_role_is(nodes.drop_last(), role);
    }
}

/// One more node counts once under its own role, and under no other.
pub proof fn each_node_counts_once(nodes: Seq<NodeShown>, n: NodeShown, role: Role)
    ensures
        count_role(Seq::empty(), role) == 0,
        n.role == role ==> count_role(nodes.push(n), role) == count_role(nodes, role) + 1,
        n.role != role ==> count_role(nodes.push(n), role) == count_role(nodes, role),
{
    assert(nodes.push(n).drop_last() == nodes);
}

/// One more worker adds its running jobs to the count; any other node adds none.
pub proof fn only_workers_jobs_count(nodes: Seq<NodeShown>, n: NodeShown)
    ensures
        worker_jobs(Seq::empty()) == 0,
        n.role == Role::Worker ==> worker_jobs(nodes.push(n)) == worker_jobs(nodes)
            + n.running_jobs,
        n.role != Role::Worker ==> worker_jobs(nodes.push(n)) == worker_jobs(nodes),
{
    assert(nodes.push(n).drop_last() == nodes);
}

/// Why there is no rollup.
#[derive(Debug)]
pub enum RollupError {
    /// The mesh could not be listed.
    Source(SourceError),
    /// The jobs on workers are too many for the counter.
    TooManyJobs,
}

/// Why a read of the mesh failed.
#[derive(Debug)]
pub struct SourceError {
    pub message: String,
}

/// The reads that a rollup needs of the mesh.
pub trait MeshSource {
    /// All nodes that can be seen.
    fn atlas(&self) -> (r: Result<Vec<AtlasEntry>, SourceError>);

    /// The history of one node, where it is known.
    fn history(&self, node_id: &str) -> (r: Result<Option<NodeHistory>, SourceError>);
}

/// The work delivered that a history read tells of; a failed read tells of none.
pub open spec fn delivered(h: Result<Option<NodeHistory>, SourceError>) -> Option<u64> {
    match h {
        Ok(Some(h)) => Some(h.delivered_work),
        _ => None,
    }
}

/// A history read tells of work exactly where it found a history, and then of all the work in it.
pub proof fn reads_tell_of_the_work_they_find(h: Result<Option<NodeHistory>, SourceError>)
    ensures
        forall|found: NodeHistory|
            h == Ok::<Option<NodeHistory>, SourceError>(Some(found)) ==> delivered(h) == Some(
                #[trigger] found.delivered_work,
            ),
        h is Err || h->Ok_0 is None ==> delivered(h) is None,
{
}

/// The work delivered, as far as a read of it tells; a failed read tells of none.
pub fn delivered_work_of<E>(read: Result<Option<u64>, E>) -> (r: Option<u64>)
    ensures
        r == (match read {
            Ok(work) => work,
            Err(_) => None,
        }),
{
    match read {
        Ok(work) => work,
        Err(_) => None,
    }
}

/// The nodes as they are shown, the work delivered by each given alongside.
pub open spec fn shown_all(
    atlas: Seq<AtlasEntry>,
    delivered_work: Seq<Option<u64>>,
    window: u64,
) -> Seq<NodeShown> {
    Seq::new(atlas.len(), |i: int| shown(atlas[i]@, delivered_work[i], window))
}

/// A rollup shows every node that the mesh lists, in the mesh's order.
pub proof fn every_node_is_shown_in_order(
    atlas: Seq<AtlasEntry>,
    delivered_work: Seq<Option<u64>>,
    window: u64,
    i: int,
)
    requires
        0 <= i < atlas.len(),
    ensures
        ({
            let n = shown_all(atlas, delivered_work, window)[i];
            &&& shown_all(atlas, delivered_work, window).len() == atlas.len()
            &&& n.node_id == atlas[i].node_id@
            &&& n.cpu_cores == atlas[i].cpu_cores
            &&& n.mem_mb == atlas[i].mem_mb
            &&& n.running_jobs == atlas[i].running_jobs
            &&& n.last_seen_secs == atlas[i].last_seen_secs
            &&& n.tags.len() == atlas[i].tags@.len()
            &&& forall|k: int| 0 <= k < n.tags.len() ==> #[trigger] n.tags[k] == atlas[i].tags@[k]@
            &&& n.delivered_work == delivered_work[i]
        }),
{
}

/// Builds rollups from a source.
pub struct RollupAggregator<S> {
    source: S,
    /// A node last seen longer ago than this is offline.
    fresh_window_secs: u64,
}

impl<S> RollupAggregator<S> {
    /// The source that is read.
    pub closed spec fn source(&self) -> S {
        self.source
    }

    /// The freshness window in seconds.
    pub closed spec fn window(&self) -> u64 {
        self.fresh_window_secs
    }

    /// An aggregator over `source`.
    pub fn new(source: S, fresh_window_secs: u64) -> (r: Self)
        ensures
            r.source() == source,
            r.window() == fresh_window_secs,
    {
        RollupAggregator { source, fresh_window_secs }
    }

    /// How one node is shown.
    pub fn classify(&self, e: &AtlasEntry, delivered_work: Option<u64>) -> (r: NodeView)
        ensures
            r@ == shown(e@, delivered_work, self.window()),
            r.node_id@ == e.node_id@,
            r.cpu_cores == e.cpu_cores,
            r.mem_mb == e.mem_mb,
            r.running_jobs == e.running_jobs,
            r.last_seen_secs == e.last_seen_secs,
            r.tags@ == e.tags@,
            r.delivered_work == delivered_work,
            r.role == Role::Offline <==> e.last_seen_secs > self.window(),
            r.role == Role::Router <==> e.last_seen_secs <= self.window() && (forall|i: int|
                0 <= i < e.tags@.len() ==> (#[trigger] e.tags@[i])@ != "infer"@),
            r.role == Role::Worker <==> e.last_seen_secs <= self.window() && e.running_jobs > 0 && (
            exists|i: int| 0 <= i < e.tags@.len() && (#[trigger] e.tags@[i])@ == "infer"@),
            r.role == Role::Idle <==> e.last_seen_secs <= self.window() && e.running_jobs == 0 && (
            exists|i: int| 0 <= i < e.tags@.len() && (#[trigger] e.tags@[i])@ == "infer"@),
            forall|i: int|
                0 <= i < e.tags@.len() && "tier:"@.is_prefix_of((#[trigger] e.tags@[i])@) && (
                forall|j: int| 0 <= j < i ==> !"tier:"@.is_prefix_of((#[trigger] e.tags@[j])@))
                    ==> (r.tier matches Some(v) && e.tags@[i]@ == "tier:"@ + v@),
            (forall|i: int|
                0 <= i < e.tags@.len() ==> !"tier:"@.is_prefix_of((#[trigger] e.tags@[i])@))
                ==> r.tier is None,
            forall|i: int|
                0 <= i < e.tags@.len() && "model:"@.is_prefix_of((#[trigger] e.tags@[i])@) && (
                forall|j: int| 0 <= j < i ==> !"model:"@.is_prefix_of((#[trigger] e.tags@[j])@))
                    ==> (r.model matches Some(v) && e.tags@[i]@ == "model:"@ + v@),
            (forall|i: int|
                0 <= i < e.tags@.len() ==> !"model:"@.is_prefix_of((#[trigger] e.tags@[i])@))
                ==> r.model is None,
    {
        let tier = find_tag_value(&e.tags, "tier:");
        let model = find_tag_value(&e.tags, "model:");
        proof {
            lemma_tag_of_strings(e.tags@, "tier:"@, opt_text(tier));
            lemma_tag_of_strings(e.tags@, "model:"@, opt_text(model));
        }
        let is_infer = e.has_tag("infer");
        let role = if e.last_seen_secs > self.fresh_window_secs {
            Role::Offline
        } else if is_infer && e.running_jobs > 0 {
            Role::Worker
        } else if is_infer {
            Role::Idle
        } else {
            Role::Router
        };
        NodeView {
            node_id: e.node_id.clone(),
            cpu_cores: e.cpu_cores,
            mem_mb: e.mem_mb,
            running_jobs: e.running_jobs,
            last_seen_secs: e.last_seen_secs,
            tags: copy_texts(&e.tags),
            tier,
            model,
            role,
            delivered_work,
        }
    }

    /// How one node is shown, as far as a rollup needs to know.
    fn view_of(&self, e: &AtlasEntry, delivered_work: Option<u64>) -> (r: NodeView)
        ensures
            r@ == shown(e@, delivered_work, self.window()),
            r.node_id@ == e.node_id@,
            r.cpu_cores == e.cpu_cores,
            r.mem_mb == e.mem_mb,
            r.running_jobs == e.running_jobs,
            r.last_seen_secs == e.last_seen_secs,
            r.tags@ == e.tags@,
            r.delivered_work == delivered_work,
    {
        self.classify(e, delivered_work)
    }

    /// Whether the jobs on the workers among the nodes fit the counter.
    pub fn jobs_fit(&self, atlas: &Vec<AtlasEntry>, delivered_work: &Vec<Option<u64>>) -> (r: bool)
        requires
            atlas@.len() == delivered_work@.len(),
        ensures
            r == (worker_jobs(shown_all(atlas@, delivered_work@, self.window())) <= u64::MAX),
    {
        let ghost all = shown_all(atlas@, delivered_work@, self.window());
        let mut jobs: u64 = 0;
        let mut i: usize = 0;
        while i < atlas.len()
            invariant
                i <= atlas@.len(),
                all == shown_all(atlas@, delivered_work@, self.window()),
                jobs == worker_jobs(all.take(i as int)),
            decreases atlas@.len() - i,
        {
            let e = &atlas[i];
            proof {
                assert(all.take(i + 1).drop_last() == all.take(i as int));
                lemma_worker_jobs_grow(all, i + 1);
            }
            if e.last_seen_secs <= self.fresh_window_secs && e.running_jobs > 0 && e.has_tag(
                "infer",
            ) {
                if u64::MAX - jobs < e.running_jobs as u64 {
                    return false;
                }
                jobs = jobs + e.running_jobs as u64;
            }
            i += 1;
        }
        assert(all.take(atlas@.len() as int) == all);
        true
    }

    /// The rollup of the listed nodes, the work delivered by each given alongside.
    pub fn rollup_entries(
        &self,
        atlas: &Vec<AtlasEntry>,
        delivered_work: &Vec<Option<u64>>,
    ) -> (r: SubtreeRollup)
        requires
            atlas@.len() == delivered_work@.len(),
            worker_jobs(shown_all(atlas@, delivered_work@, self.window())) <= u64::MAX,
        ensures
            shown_nodes(r.nodes@) == shown_all(atlas@, delivered_work@, self.window()),
            r.consistent(),
            r.workers + r.idle + r.routers + r.offline == r.total,
            r.nodes@.len() == atlas@.len(),
            forall|i: int|
                #![trigger r.nodes@[i]]
                0 <= i < atlas@.len() ==> {
                    &&& r.nodes@[i].node_id@ == atlas@[i].node_id@
                    &&& r.nodes@[i].cpu_cores == atlas@[i].cpu_cores
                    &&& r.nodes@[i].mem_mb == atlas@[i].mem_mb
                    &&& r.nodes@[i].running_jobs == atlas@[i].running_jobs
                    &&& r.nodes@[i].last_seen_secs == atlas@[i].last_seen_secs
                    &&& r.nodes@[i].tags@ == atlas@[i].tags@
                    &&& r.nodes@[i].delivered_work == delivered_work@[i]
                },
            r.total == atlas@.len(),
            r.workers == r.nodes@.filter(|n: NodeView| n.role == Role::Worker).len(),
            r.idle == r.nodes@.filter(|n: NodeView| n.role == Role::Idle).len(),
            r.routers == r.nodes@.filter(|n: NodeView| n.role == Role::Router).len(),
            r.offline == r.nodes@.filter(|n: NodeView| n.role == Role::Offline).len(),
            r.running_jobs == worker_jobs(shown_nodes(r.nodes@)),
    {
        let ghost all = shown_all(atlas@, delivered_work@, self.window());
        let mut out = SubtreeRollup::default();
        let mut i: usize = 0;
        while i < atlas.len()
            invariant
                i <= atlas@.len(),
                atlas@.len() == delivered_work@.len(),
                all == shown_all(atlas@, delivered_work@, self.window()),
                worker_jobs(all) <= u64::MAX,
                shown_nodes(out.nodes@) == all.take(i as int),
                out.consistent(),
                out.nodes@.len() == i,
                forall|k: int|
                    #![trigger out.nodes@[k]]
                    0 <= k < i ==> {
                        &&& out.nodes@[k].node_id@ == atlas@[k].node_id@
                        &&& out.nodes@[k].cpu_cores == atlas@[k].cpu_cores
                        &&& out.nodes@[k].mem_mb == atlas@[k].mem_mb
                        &&& out.nodes@[k].running_jobs == atlas@[k].running_jobs
                        &&& out.nodes@[k].last_seen_secs == atlas@[k].last_seen_secs
                        &&& out.nodes@[k].tags@ == atlas@[k].tags@
                        &&& out.nodes@[k].delivered_work == delivered_work@[k]
                    },
            decreases atlas@.len() - i,
        {
            proof {
                assert(all.take(i + 1).drop_last() == all.take(i as int));
                assert(all.take(i + 1).last() == all[i as int]);
                lemma_worker_jobs_grow(all, i + 1);
                roles_partition(all.take(i + 1));
            }
            let view = self.view_of(&atlas[i], delivered_work[i]);
            match view.role {
                Role::Worker => {
                    out.workers = out.workers + 1;
                    out.running_jobs = out.running_jobs + view.running_jobs as u64;
                },
                Role::Idle => {
                    out.idle = out.idle + 1;
                },
                Role::Router => {
                    out.routers = out.routers + 1;
                },
                Role::Offline => {
                    out.offline = out.offline + 1;
                },
            }
            out.total = out.total + 1;
            out.nodes.push(view);
            assert(shown_nodes(out.nodes@) == all.take(i + 1));
            i += 1;
        }
        proof {
            assert(all.take(atlas@.len() as int) == all);
            roles_partition(all);
            lemma_count_role_is(out.nodes@, Role::Worker);
            lemma_count_role_is(out.nodes@, Role::Idle);
            lemma_count_role_is(out.nodes@, Role::Router);
            lemma_count_role_is(out.nodes@, Role::Offline);
        }
        out
    }
}

/// The view of a node says of it what the mesh says: whatever an aggregator shows for an entry has
/// the entry's identity, cores, memory, jobs, age and tags, each in its own place.
pub proof fn views_say_what_the_mesh_says<S>(
    aggregator: RollupAggregator<S>,
    e: AtlasEntry,
    delivered_work: Option<u64>,
    view: NodeView,
)
    requires
        call_ensures(RollupAggregator::<S>::classify, (&aggregator, &e, delivered_work), view),
    ensures
        view.node_id@ == e.node_id@,
        view.cpu_cores == e.cpu_cores,
        view.mem_mb == e.mem_mb,
        view.running_jobs == e.running_jobs,
        view.last_seen_secs == e.last_seen_secs,
        view.tags@ == e.tags@,
        view.delivered_work == delivered_work,
{
}

/// A view and its entry agree as plain values too.
pub proof fn shown_nodes_say_what_the_mesh_says(
    e: AtlasEntryView,
    delivered_work: Option<u64>,
    window: u64,
)
    ensures
        ({
            let n = shown(e, delivered_work, window);
            &&& n.node_id == e.node_id
            &&& n.cpu_cores == e.cpu_cores
            &&& n.mem_mb == e.mem_mb
            &&& n.running_jobs == e.running_jobs
            &&& n.last_seen_secs == e.last_seen_secs
            &&& n.tags == e.tags
            &&& n.delivered_work == delivered_work
        }),
{
}

/// A node is a worker or idle exactly where it is fresh and advertises `infer`, and of the two it is
/// a worker exactly where it runs jobs. Being seen more recently never makes a node offline.
pub proof fn roles_follow_tags_and_load(e: AtlasEntryView, window: u64)
    ensures
        (role_of(e, window) == Role::Worker || role_of(e, window) == Role::Idle) <==> (
        e.last_seen_secs <= window && exists|i: int| 0 <= i < e.tags.len() && #[trigger] e.tags[i]
            == "infer"@),
        role_of(e, window) == Role::Worker ==> e.running_jobs > 0,
        role_of(e, window) == Role::Idle ==> e.running_jobs == 0,
        role_of(e, window) == Role::Offline <==> e.last_seen_secs > window,
{
    if e.tags.contains("infer"@) {
        let i = choose|i: int| 0 <= i < e.tags.len() && e.tags[i] == "infer"@;
        assert(e.tags[i] == "infer"@);
    }
}

/// Whether `h` is what the source may answer to a read of the history of `node_id`.
pub open spec fn may_answer<S: MeshSource>(
    source: S,
    node_id: Seq<char>,
    h: Result<Option<NodeHistory>, SourceError>,
) -> bool {
    exists|id: &str| id@ == node_id && #[trigger] call_ensures(S::history, (&source, id), h)
}

/// Whether `work` is what reading the history of `node_id` may tell.
pub open spec fn may_tell<S: MeshSource>(source: S, node_id: Seq<char>, work: Option<u64>) -> bool {
    exists|h: Result<Option<NodeHistory>, SourceError>|
        #[trigger] may_answer(source, node_id, h) && work == delivered(h)
}

/// Whether `delivered_work` is what reading the history of each node may tell.
pub open spec fn may_deliver<S: MeshSource>(
    source: S,
    atlas: Seq<AtlasEntry>,
    delivered_work: Seq<Option<u64>>,
) -> bool {
    &&& delivered_work.len() == atlas.len()
    &&& forall|i: int|
        0 <= i < atlas.len() ==> may_tell(
            source,
            atlas[i]@.node_id,
            #[trigger] delivered_work[i],
        )
}

impl<S: MeshSource> RollupAggregator<S> {
    /// The rollup of all nodes that the source lists. Each node's history is read; where that
    /// fails, its work is unknown and the node is shown all the same.
    pub fn rollup(&self) -> (r: Result<SubtreeRollup, RollupError>)
        ensures
            match r {
                Ok(out) => exists|atlas: Vec<AtlasEntry>, delivered_work: Seq<Option<u64>>|
                    {
                        &&& #[trigger] call_ensures(S::atlas, (&self.source(),), Ok(atlas))
                        &&& #[trigger] may_deliver(self.source(), atlas@, delivered_work)
                        &&& shown_nodes(out.nodes@) == shown_all(
                            atlas@,
                            delivered_work,
                            self.window(),
                        )
                        &&& out.consistent()
                        &&& out.total == atlas@.len()
                        &&& out.nodes@.len() == atlas@.len()
                        &&& forall|i: int|
                            #![trigger out.nodes@[i]]
                            0 <= i < atlas@.len() ==> {
                                &&& out.nodes@[i].node_id@ == atlas@[i].node_id@
                                &&& out.nodes@[i].cpu_cores == atlas@[i].cpu_cores
                                &&& out.nodes@[i].mem_mb == atlas@[i].mem_mb
                                &&& out.nodes@[i].running_jobs == atlas@[i].running_jobs
                                &&& out.nodes@[i].last_seen_secs == atlas@[i].last_seen_secs
                                &&& out.nodes@[i].tags@ == atlas@[i].tags@
                                &&& out.nodes@[i].delivered_work == delivered_work[i]
                            }
                    },
                Err(RollupError::Source(e)) => call_ensures(S::atlas, (&self.source(),), Err(e)),
                Err(RollupError::TooManyJobs) => exists|
                    atlas: Vec<AtlasEntry>,
                    delivered_work: Seq<Option<u64>>,
                |
                    {
                        &&& #[trigger] call_ensures(S::atlas, (&self.source(),), Ok(atlas))
                        &&& #[trigger] may_deliver(self.source(), atlas@, delivered_work)
                        &&& worker_jobs(shown_all(atlas@, delivered_work, self.window()))
                            > u64::MAX
                    },
            },
    {
        let atlas = match self.source.atlas() {
            Ok(a) => a,
            Err(e) => return Err(RollupError::Source(e)),
        };
        let mut delivered_work: Vec<Option<u64>> = Vec::new();
        let mut i: usize = 0;
        while i < atlas.len()
            invariant
                i <= atlas@.len(),
                delivered_work@.len() == i,
                forall|k: int|
                    0 <= k < i ==> may_tell(
                        self.source,
                        atlas@[k]@.node_id,
                        #[trigger] delivered_work@[k],
                    ),
            decreases atlas@.len() - i,
        {
            let id = atlas[i].node_id.as_str();
            let h = self.source.history(id);
            let ghost was = delivered_work@;
            let ghost answer = h;
            let read = match h {
                Ok(Some(h)) => Ok(Some(h.delivered_work)),
                Ok(None) => Ok(None),
                Err(e) => Err(e),
            };
            let work = delivered_work_of(read);
            assert(may_answer(self.source, atlas@[i as int]@.node_id, answer));
            assert(may_tell(self.source, atlas@[i as int]@.node_id, work));
            delivered_work.push(work);
            assert(forall|k: int| 0 <= k < i ==> delivered_work@[k] == was[k]);
            i += 1;
        }
        assert(may_deliver(self.source(), atlas@, delivered_work@));
        if !self.jobs_fit(&atlas, &delivered_work) {
            return Err(RollupError::TooManyJobs);
        }
        Ok(self.rollup_entries(&atlas, &delivered_work))
    }
}

} // verus!
