//! The answering side of pairing: requests are checked, parked until a human decides or the wait
//! ends, and answered. On acceptance a capability over this node is issued to the asking node.
use std::collections::HashMap;

use vstd::prelude::*;
use vstd::string::*;

use crate::pair::{conclude, outcome_of, stored_for, Conclusion, REQUEST_TIMEOUT_MS};
use crate::proto::{
    admin_abilities, PairRequest, PairRequestView, PairResponse, PairResponseView, TOPIC,
};
use crate::text::{
    ascii_hex_digit, before, chars_of, copy_texts, find, find_char, lemma_find, lemma_find_is,
    lemma_trimmed_ends, lemma_trimmed_is, lemma_trimmed_same, lemma_trimmed_span, lines, same_text,
    string_of, texts, trim, trimmed, trimming_ignores_white_space_around, white_space, without_cr,
};
use crate::util::{
    node_id, node_id_error_text, node_ids_are_64_hex_digits, parse_node_id, NodeIdError,
};

verus! {

/// How long a request stays parked before it is denied, in seconds.
pub const DECISION_TIMEOUT_SECS: u64 = 170;

/// A parked request.
pub struct Pending<D> {
    /// What was asked.
    pub req: PairRequest,
    /// When it was parked, in unix seconds.
    pub created: u64,
    /// Where to send the decision, until it is taken.
    pub decide: Option<D>,
}

/// The requests that are parked, by id. `D` is what a decision is sent through.
pub struct DaemonState<D> {
    pending: HashMap<u64, Pending<D>>,
    next_id: u64,
}

/// A parked request as the accept prompt shows it.
#[derive(Debug)]
pub struct PendingView {
    pub id: u64,
    pub from_node: String,
    pub label: String,
    pub abilities: Vec<String>,
    pub ttl_secs: u64,
    pub want_roots: bool,
    pub age_secs: u64,
}

/// What a [`PendingView`] says.
pub ghost struct PromptView {
    pub id: u64,
    pub from_node: Seq<char>,
    pub label: Seq<char>,
    pub abilities: Seq<Seq<char>>,
    pub ttl_secs: u64,
    pub want_roots: bool,
    pub age_secs: u64,
}

impl View for PendingView {
    type V = PromptView;

    open spec fn view(&self) -> PromptView {
        PromptView {
            id: self.id,
            from_node: self.from_node@,
            label: self.label@,
            abilities: texts(self.abilities@),
            ttl_secs: self.ttl_secs,
            want_roots: self.want_roots,
            age_secs: self.age_secs,
        }
    }
}

/// How old something made at `created` is at `now`; nothing is younger than new.
pub open spec fn age(now: u64, created: u64) -> u64 {
    if created <= now {
        (now - created) as u64
    } else {
        0
    }
}

/// The prompt for the request parked under `id`.
pub open spec fn prompt<D>(id: u64, p: Pending<D>, now: u64) -> PromptView {
    PromptView {
        id,
        from_node: p.req@.from_node,
        label: p.req@.label,
        abilities: p.req@.abilities,
        ttl_secs: p.req@.ttl_secs,
        want_roots: p.req@.want_roots,
        age_secs: age(now, p.created),
    }
}

/// Whether `id` is parked in `m` and still waits for its decision.
pub open spec fn undecided<D>(m: Map<u64, Pending<D>>, id: u64) -> bool {
    m.contains_key(id) && m[id].decide is Some
}

/// The parked requests once one more is parked under `id`.
pub open spec fn after_parking<D>(
    m: Map<u64, Pending<D>>,
    id: u64,
    req: PairRequest,
    now: u64,
    decide: D,
) -> Map<u64, Pending<D>> {
    m.insert(id, Pending { req, created: now, decide: Some(decide) })
}

/// The parked requests once the decision on `id` is taken.
pub open spec fn after_deciding<D>(m: Map<u64, Pending<D>>, id: u64) -> Map<u64, Pending<D>> {
    if undecided(m, id) {
        m.insert(id, Pending { req: m[id].req, created: m[id].created, decide: None })
    } else {
        m
    }
}

/// Why a request is refused before a human sees it, where it is. `from` is the sender that the
/// mesh authenticated; `parsed` is the request, or what is wrong with its encoding.
pub open spec fn refusal(
    topic: Seq<char>,
    from: Seq<char>,
    parsed: Result<PairRequestView, Seq<char>>,
) -> Option<Seq<char>> {
    if topic != TOPIC@ {
        Some("wrong topic"@)
    } else {
        match parsed {
            Err(e) => Some("bad request: "@ + e),
            Ok(pr) => if pr.from_node != from {
                Some("sender identity mismatch"@)
            } else if pr.abilities.len() == 0 {
                Some("no abilities requested"@)
            } else {
                None
            },
        }
    }
}

/// What the payload of a request says.
pub open spec fn payload_view(parsed: Result<PairRequest, String>) -> Result<
    PairRequestView,
    Seq<char>,
> {
    match parsed {
        Ok(pr) => Ok(pr@),
        Err(e) => Err(e@),
    }
}

/// What a [`DaemonState`] holds: the parked requests by id, and the id that the next one gets.
#[verifier::ext_equal]
pub ghost struct StateView<D> {
    pub parked: Map<u64, Pending<D>>,
    pub next: u64,
}

/// What can happen to a [`DaemonState`].
pub ghost enum Step<D> {
    /// A request comes in.
    Receive {
        topic: Seq<char>,
        from: Seq<char>,
        parsed: Result<PairRequest, String>,
        now: u64,
        decide: D,
    },
    /// The decision on an id is taken.
    Decide { id: u64 },
    /// The wait on an id ends.
    Settle { id: u64 },
}

/// Whether the step parks a request.
pub open spec fn parks<D>(step: Step<D>) -> bool {
    match step {
        Step::Receive { topic, from, parsed, now, decide } => {
            refusal(topic, from, payload_view(parsed)) is None
        },
        _ => false,
    }
}

/// The state with nothing parked.
pub open spec fn fresh_state<D>() -> StateView<D> {
    StateView { parked: Map::empty(), next: 1 }
}

/// The state after a step.
pub open spec fn after_step<D>(s: StateView<D>, step: Step<D>) -> StateView<D> {
    match step {
        Step::Receive { topic, from, parsed, now, decide } => if parks(step) {
            StateView {
                parked: after_parking(s.parked, s.next, parsed->Ok_0, now, decide),
                next: s.next.wrapping_add(1),
            }
        } else {
            s
        },
        Step::Decide { id } => StateView { parked: after_deciding(s.parked, id), next: s.next },
        Step::Settle { id } => StateView { parked: s.parked.remove(id), next: s.next },
    }
}

/// The state that a run of steps leads to from the fresh one.
pub open spec fn after_run<D>(run: Seq<Step<D>>) -> StateView<D>
    decreases run.len(),
{
    if run.len() == 0 {
        fresh_state()
    } else {
        after_step(after_run(run.drop_last()), run.last())
    }
}

/// How many requests a run of steps parks.
pub open spec fn parkings<D>(run: Seq<Step<D>>) -> nat
    decreases run.len(),
{
    if run.len() == 0 {
        0
    } else {
        parkings(run.drop_last()) + if parks(run.last()) {
            1nat
        } else {
            0nat
        }
    }
}

/// The id that the request which step `i` of a run parks gets.
pub open spec fn id_given<D>(run: Seq<Step<D>>, i: int) -> u64 {
    after_run(run.take(i)).next
}

/// What became of a request that came in.
#[derive(Debug)]
pub enum Received {
    /// It is answered at once.
    Reply(PairResponse),
    /// It waits for a decision under `id`.
    Parked {
        /// Its id.
        id: u64,
        /// What was asked.
        request: PairRequest,
    },
}

/// How the wait for a decision ended.
#[derive(Debug, Clone, Copy, PartialEq, Eq, Structural)]
pub enum Waited {
    /// A human accepted (`true`) or denied.
    Decided(bool),
    /// What the decision is sent through was dropped.
    Dropped,
    /// Nobody decided in time.
    TimedOut,
}

/// Checks a request: the request itself where a human is to decide on it, else the refusal.
pub fn check_request(topic: &str, from: &str, parsed: Result<PairRequest, String>) -> (r: Result<
    PairRequest,
    PairResponse,
>)
    ensures
        match refusal(topic@, from@, payload_view(parsed)) {
            Some(reason) => r matches Err(e) && e@ == (PairResponseView::Denied { reason }),
            None => r is Ok && parsed is Ok && r->Ok_0 == parsed->Ok_0,
        },
        topic@ != "ce-fleet/pair"@ ==> (r matches Err(PairResponse::Denied { reason }) && reason@
            == "wrong topic"@),
        topic@ == "ce-fleet/pair"@ ==> (parsed matches Err(e) ==> (r matches Err(
            PairResponse::Denied { reason },
        ) && reason@ == "bad request: "@ + e@)),
        topic@ == "ce-fleet/pair"@ ==> (parsed matches Ok(pr) ==> {
            &&& pr.from_node@ != from@ ==> (r matches Err(PairResponse::Denied { reason })
                && reason@ == "sender identity mismatch"@)
            &&& pr.from_node@ == from@ && pr.abilities@.len() == 0 ==> (r matches Err(
                PairResponse::Denied { reason },
            ) && reason@ == "no abilities requested"@)
            &&& pr.from_node@ == from@ && pr.abilities@.len() > 0 ==> r == Ok::<
                PairRequest,
                PairResponse,
            >(pr)
        }),
{
    if !same_text(topic, TOPIC) {
        return Err(PairResponse::denied("wrong topic"));
    }
    let pr = match parsed {
        Ok(pr) => pr,
        Err(e) => {
            let mut reason = "bad request: ".to_owned();
            reason.append(e.as_str());
            return Err(PairResponse::denied(reason.as_str()));
        },
    };
    if !same_text(pr.from_node.as_str(), from) {
        return Err(PairResponse::denied("sender identity mismatch"));
    }
    if pr.abilities.len() == 0 {
        return Err(PairResponse::denied("no abilities requested"));
    }
    Ok(pr)
}

impl<D> DaemonState<D> {
    /// The parked requests by id.
    pub closed spec fn parked(&self) -> Map<u64, Pending<D>> {
        self.pending@
    }

    /// The id that the next parked request gets.
    pub closed spec fn next(&self) -> u64 {
        self.next_id
    }

    /// What the state holds.
    pub open spec fn state(&self) -> StateView<D> {
        StateView { parked: self.parked(), next: self.next() }
    }

    /// Whether every parked id was handed out before the next one.
    pub open spec fn ordered(&self) -> bool {
        &&& self.next() >= 1
        &&& forall|id: u64| self.parked().contains_key(id) ==> 1 <= id < self.next()
    }

    /// A state with nothing parked.
    pub fn new() -> (r: Self)
        ensures
            r.parked() == Map::<u64, Pending<D>>::empty(),
            r.next() == 1,
            r.state() == fresh_state::<D>(),
            r.ordered(),
    {
        DaemonState { pending: HashMap::new(), next_id: 1 }
    }

    /// Parks a request under the next id, which it returns.
    pub fn park(&mut self, req: PairRequest, now: u64, decide: D) -> (id: u64)
        ensures
            id == old(self).next(),
            final(self).parked() == after_parking(old(self).parked(), id, req, now, decide),
            final(self).next() == old(self).next().wrapping_add(1),
            old(self).ordered() && old(self).next() < u64::MAX ==> final(self).ordered()
                && !old(self).parked().contains_key(id),
            final(self).parked().contains_key(id),
            final(self).parked()[id].req == req,
            final(self).parked()[id].created == now,
            final(self).parked()[id].decide == Some(decide),
            forall|k: u64| k != id ==> #[trigger] final(self).parked().contains_key(k) == old(self).parked().contains_key(k),
            forall|k: u64|
                k != id && old(self).parked().contains_key(k) ==> #[trigger] final(self).parked()[k]
                    == old(self).parked()[k],
    {
        broadcast use vstd::std_specs::hash::group_hash_axioms;

        let id: u64 = self.next_id;
        self.next_id = id.wrapping_add(1);
        self.pending.insert(id, Pending { req, created: now, decide: Some(decide) });
        assert(old(self).next() < u64::MAX ==> self.next() == id + 1);
        assert(old(self).ordered() ==> !old(self).parked().contains_key(id));
        assert forall|k: u64|
            old(self).ordered() && old(self).next() < u64::MAX && self.parked().contains_key(
                k,
            ) implies 1 <= k < self.next() by {
            if k != id {
                assert(old(self).parked().contains_key(k));
            }
        }
        id
    }

    /// Takes what the decision on `id` is sent through. There is none where the id is unknown or
    /// was decided before.
    pub fn decide(&mut self, id: u64) -> (r: Option<D>)
        ensures
            r is Some <==> undecided(old(self).parked(), id),
            r is Some ==> r == old(self).parked()[id].decide,
            !old(self).parked().contains_key(id) ==> r is None,
            old(self).parked().contains_key(id) ==> {
                &&& r == old(self).parked()[id].decide
                &&& final(self).parked()[id].decide is None
                &&& final(self).parked()[id].req == old(self).parked()[id].req
                &&& final(self).parked()[id].created == old(self).parked()[id].created
            },
            final(self).parked().dom() == old(self).parked().dom(),
            forall|k: u64|
                k != id && old(self).parked().contains_key(k) ==> #[trigger] final(self).parked()[k]
                    == old(self).parked()[k],
            final(self).parked() == after_deciding(old(self).parked(), id),
            final(self).next() == old(self).next(),
            final(self).state() == after_step(old(self).state(), (Step::Decide { id })),
            old(self).ordered() ==> final(self).ordered(),
    {
        broadcast use vstd::std_specs::hash::group_hash_axioms;

        let ghost m = self.pending@;
        match self.pending.remove(&id) {
            Some(p) => {
                let Pending { req, created, decide } = p;
                self.pending.insert(id, Pending { req, created, decide: None });
                if decide.is_none() {
                    assert(self.pending@ == m);
                }
                decide
            },
            None => {
                assert(self.pending@ == m);
                None
            },
        }
    }

    /// The requests that still wait for a decision, by increasing id.
    pub fn snapshot(&self, now: u64) -> (r: Vec<PendingView>)
        ensures
            forall|i: int, j: int| 0 <= i < j < r@.len() ==> r@[i].id < r@[j].id,
            forall|i: int|
                0 <= i < r@.len() ==> undecided(self.parked(), (#[trigger] r@[i]).id) && r@[i]@
                    == prompt(r@[i].id, self.parked()[r@[i].id], now),
            forall|id: u64|
                undecided(self.parked(), id) ==> exists|i: int|
                    0 <= i < r@.len() && (#[trigger] r@[i]).id == id,
            forall|i: int|
                #![trigger r@[i]]
                0 <= i < r@.len() ==> {
                    let p = self.parked()[r@[i].id];
                    &&& self.parked().contains_key(r@[i].id)
                    &&& p.decide is Some
                    &&& r@[i].from_node@ == p.req.from_node@
                    &&& r@[i].label@ == p.req.label@
                    &&& r@[i].abilities@ == p.req.abilities@
                    &&& r@[i].ttl_secs == p.req.ttl_secs
                    &&& r@[i].want_roots == p.req.want_roots
                    &&& p.created <= now ==> r@[i].age_secs == now - p.created
                    &&& p.created > now ==> r@[i].age_secs == 0
                },
            forall|id: u64|
                self.parked().contains_key(id) && (#[trigger] self.parked()[id]).decide is Some
                    ==> exists|i: int| 0 <= i < r@.len() && (#[trigger] r@[i]).id == id,
    {
        broadcast use vstd::std_specs::hash::group_hash_axioms;

        let ghost m = self.pending@;
        let mut r: Vec<PendingView> = Vec::new();
        for entry in it: self.pending.iter()
            invariant
                m == self.pending@,
                it.seq().no_duplicates(),
                forall|k: int|
                    #![trigger it.seq()[k]]
                    0 <= k < it.seq().len() ==> m.contains_key(*it.seq()[k].0)
                        && m[*it.seq()[k].0] == *it.seq()[k].1,
                forall|i: int, j: int| 0 <= i < j < r@.len() ==> r@[i].id < r@[j].id,
                forall|i: int|
                    0 <= i < r@.len() ==> undecided(m, (#[trigger] r@[i]).id) && r@[i]@ == prompt(
                        r@[i].id,
                        m[r@[i].id],
                        now,
                    ) && exists|k: int|
                        0 <= k < it.index() && *(#[trigger] it.seq()[k]).0 == r@[i].id,
                forall|i: int|
                    #![trigger r@[i]]
                    0 <= i < r@.len() ==> {
                        let p = m[r@[i].id];
                        &&& r@[i].from_node@ == p.req.from_node@
                        &&& r@[i].label@ == p.req.label@
                        &&& r@[i].abilities@ == p.req.abilities@
                        &&& r@[i].ttl_secs == p.req.ttl_secs
                        &&& r@[i].want_roots == p.req.want_roots
                        &&& p.created <= now ==> r@[i].age_secs == now - p.created
                        &&& p.created > now ==> r@[i].age_secs == 0
                    },
                forall|k: int|
                    0 <= k < it.index() && (#[trigger] it.seq()[k]).1.decide is Some
                        ==> exists|i: int|
                        0 <= i < r@.len() && (#[trigger] r@[i]).id == *it.seq()[k].0,
        {
            let (id, p) = entry;
            if p.decide.is_some() {
                let age_secs: u64 = if p.created <= now {
                    now - p.created
                } else {
                    0
                };
                let row = PendingView {
                    id: *id,
                    from_node: p.req.from_node.clone(),
                    label: p.req.label.clone(),
                    abilities: copy_texts(&p.req.abilities),
                    ttl_secs: p.req.ttl_secs,
                    want_roots: p.req.want_roots,
                    age_secs,
                };
                let at: usize = position_after(&r, *id);
                let ghost was = r@;
                r.insert(at, row);
                assert(r@ == was.insert(at as int, row));
                assert(r@[at as int].id == *id);
                assert forall|i: int| 0 <= i < was.len() implies exists|j: int|
                    0 <= j < r@.len() && (#[trigger] r@[j]).id == (#[trigger] was[i]).id by {
                    let j = if i < at {
                        i
                    } else {
                        i + 1
                    };
                    assert(r@[j].id == was[i].id);
                }
            }
        }
        r
    }

    /// Takes in a request: refuses it, or parks it until a decision arrives through `decide`.
    pub fn receive(
        &mut self,
        topic: &str,
        from: &str,
        parsed: Result<PairRequest, String>,
        now: u64,
        decide: D,
    ) -> (r: Received)
        ensures
            match refusal(topic@, from@, payload_view(parsed)) {
                Some(reason) => {
                    &&& r matches Received::Reply(a) && a@ == (PairResponseView::Denied { reason })
                    &&& final(self).parked() == old(self).parked()
                    &&& final(self).next() == old(self).next()
                },
                None => {
                    &&& parsed is Ok
                    &&& r matches Received::Parked { id, request } && id == old(self).next()
                        && request@ == parsed->Ok_0@
                    &&& final(self).parked() == after_parking(
                        old(self).parked(),
                        old(self).next(),
                        parsed->Ok_0,
                        now,
                        decide,
                    )
                    &&& final(self).next() == old(self).next().wrapping_add(1)
                },
            },
            final(self).state() == after_step(
                old(self).state(),
                (Step::Receive { topic: topic@, from: from@, parsed, now, decide }),
            ),
            old(self).ordered() && old(self).next() < u64::MAX ==> final(self).ordered(),
            topic@ != "ce-fleet/pair"@ ==> (r matches Received::Reply(PairResponse::Denied { reason })
                && reason@ == "wrong topic"@),
            topic@ == "ce-fleet/pair"@ ==> (parsed matches Err(e) ==> (r matches Received::Reply(
                PairResponse::Denied { reason },
            ) && reason@ == "bad request: "@ + e@)),
            topic@ == "ce-fleet/pair"@ ==> (parsed matches Ok(pr) ==> {
                &&& pr.from_node@ != from@ ==> (r matches Received::Reply(
                    PairResponse::Denied { reason },
                ) && reason@ == "sender identity mismatch"@)
                &&& pr.from_node@ == from@ && pr.abilities@.len() == 0 ==> (
                r matches Received::Reply(PairResponse::Denied { reason }) && reason@
                    == "no abilities requested"@)
                &&& pr.from_node@ == from@ && pr.abilities@.len() > 0 ==> {
                    &&& r matches Received::Parked { id, request }
                    &&& id == old(self).next()
                    &&& request.from_node@ == pr.from_node@
                    &&& request.label@ == pr.label@
                    &&& request.abilities@ == pr.abilities@
                    &&& request.ttl_secs == pr.ttl_secs
                    &&& request.want_roots == pr.want_roots
                    &&& request.nonce == pr.nonce
                    &&& final(self).parked().contains_key(id)
                    &&& final(self).parked()[id].req == pr
                    &&& final(self).parked()[id].created == now
                    &&& final(self).parked()[id].decide == Some(decide)
                }
            }),
            r is Reply ==> final(self).parked() == old(self).parked(),
            forall|k: u64|
                k != old(self).next() && old(self).parked().contains_key(k) ==> final(self).parked().contains_key(k) && #[trigger] final(self).parked()[k] == old(self).parked()[k],
    {
        match check_request(topic, from, parsed) {
            Ok(pr) => {
                let request = pr.clone();
                let id: u64 = self.park(pr, now, decide);
                Received::Parked { id, request }
            },
            Err(reply) => Received::Reply(reply),
        }
    }

    /// Ends the wait on `id`: the request is no longer parked, and is denied unless it was
    /// accepted.
    pub fn settle(&mut self, id: u64, waited: Waited) -> (r: Option<PairResponse>)
        ensures
            final(self).parked() == old(self).parked().remove(id),
            final(self).next() == old(self).next(),
            final(self).state() == after_step(old(self).state(), (Step::Settle { id })),
            old(self).ordered() ==> final(self).ordered(),
            r is None <==> waited == Waited::Decided(true),
            r matches Some(a) ==> a@ == (PairResponseView::Denied {
                reason: "denied or timed out"@,
            }),
            waited != Waited::Decided(true) ==> (r matches Some(PairResponse::Denied { reason })
                && reason@ == "denied or timed out"@),
    {
        broadcast use vstd::std_specs::hash::group_hash_axioms;

        self.pending.remove(&id);
        assert forall|k: u64| self.parked().contains_key(k) implies old(
            self).parked().contains_key(k) by {}
        match waited {
            Waited::Decided(true) => None,
            _ => Some(PairResponse::denied("denied or timed out")),
        }
    }
}

/// The number of prompts at the front of `v` whose ids are below `id`.
fn position_after(v: &Vec<PendingView>, id: u64) -> (r: usize)
    requires
        forall|i: int, j: int| 0 <= i < j < v@.len() ==> v@[i].id < v@[j].id,
    ensures
        r <= v@.len(),
        forall|i: int| 0 <= i < r ==> (#[trigger] v@[i]).id < id,
        forall|i: int| r <= i < v@.len() ==> id <= (#[trigger] v@[i]).id,
{
    let mut r: usize = 0;
    while r < v.len() && v[r].id < id
        invariant
            r <= v@.len(),
            forall|i: int| 0 <= i < r ==> (#[trigger] v@[i]).id < id,
        decreases v@.len() - r,
    {
        r += 1;
    }
    r
}

/// When a capability issued at `now` for `ttl_secs` seconds ends; `0` means never.
pub open spec fn expiry(now: u64, ttl_secs: u64) -> int {
    if ttl_secs == 0 {
        0
    } else {
        now + ttl_secs
    }
}

/// What a capability is issued on.
#[derive(Debug)]
pub struct MintTerms {
    /// The node that may use it.
    pub audience: [u8; 32],
    /// What it may do.
    pub abilities: Vec<String>,
    /// When it ends in unix seconds; `0` means never.
    pub not_after: u64,
    /// Its name for revocation: the nonce of the request.
    pub nonce: u64,
    /// Whether the node is to be added to the roots too.
    pub want_roots: bool,
}

/// Whether `t` grants at `now` what `pr` asks for.
pub open spec fn terms_for(pr: PairRequestView, now: u64, t: MintTerms) -> bool {
    &&& node_id(pr.from_node) == Ok::<Seq<u8>, NodeIdError>(t.audience@)
    &&& texts(t.abilities@) == pr.abilities
    &&& t.not_after == expiry(now, pr.ttl_secs)
    &&& t.nonce == pr.nonce
    &&& t.want_roots == pr.want_roots
}

/// Why no capability can be issued.
#[derive(Debug, Clone, Copy, PartialEq, Eq, Structural)]
pub enum MintError {
    /// The asking node's id is none.
    NodeId(NodeIdError),
    /// The end of the lifetime asked for does not fit 64 bits.
    LifetimeTooLong,
}

/// What a [`MintError`] says.
pub open spec fn mint_error_text(e: MintError) -> Seq<char> {
    match e {
        MintError::NodeId(e) => node_id_error_text(e),
        MintError::LifetimeTooLong => "lifetime too long"@,
    }
}

impl MintError {
    /// The error in words.
    pub fn message(&self) -> (r: String)
        ensures
            r@ == mint_error_text(*self),
            *self == MintError::LifetimeTooLong ==> r@ == "lifetime too long"@,
            *self matches MintError::NodeId(e) ==> r@ == node_id_error_text(e),
    {
        match self {
            MintError::NodeId(e) => e.message(),
            MintError::LifetimeTooLong => "lifetime too long".to_owned(),
        }
    }
}

/// The terms on which an accepted request is granted at `now`: the asking node gets exactly the
/// abilities that it asked for, for as long as it asked. There are none where its id is no node id,
/// nor where the lifetime ends beyond what 64 bits can say.
pub fn mint_terms(pr: &PairRequest, now: u64) -> (r: Result<MintTerms, MintError>)
    ensures
        match node_id(pr.from_node@) {
            Err(e) => r == Err::<MintTerms, MintError>(MintError::NodeId(e)),
            Ok(_) => if expiry(now, pr.ttl_secs) <= u64::MAX {
                r matches Ok(t) && terms_for(pr@, now, t)
            } else {
                r == Err::<MintTerms, MintError>(MintError::LifetimeTooLong)
            },
        },
        r matches Ok(t) ==> {
            &&& node_id(pr.from_node@) == Ok::<Seq<u8>, NodeIdError>(t.audience@)
            &&& t.abilities@ == pr.abilities@
            &&& t.want_roots == pr.want_roots
            &&& t.nonce == pr.nonce
            &&& pr.ttl_secs == 0 ==> t.not_after == 0
            &&& pr.ttl_secs > 0 ==> t.not_after == now + pr.ttl_secs
        },
        r is Ok <==> node_id(pr.from_node@) is Ok && (pr.ttl_secs == 0 || now + pr.ttl_secs
            <= u64::MAX),
        r == Err::<MintTerms, MintError>(MintError::LifetimeTooLong) <==> node_id(
            pr.from_node@,
        ) is Ok && pr.ttl_secs > 0 && now + pr.ttl_secs > u64::MAX,
{
    let audience = match parse_node_id(pr.from_node.as_str()) {
        Ok(a) => a,
        Err(e) => return Err(MintError::NodeId(e)),
    };
    let not_after: u64 = if pr.ttl_secs == 0 {
        0
    } else {
        match now.checked_add(pr.ttl_secs) {
            Some(end) => end,
            None => return Err(MintError::LifetimeTooLong),
        }
    };
    Ok(
        MintTerms {
            audience,
            abilities: copy_texts(&pr.abilities),
            not_after,
            nonce: pr.nonce,
            want_roots: pr.want_roots,
        },
    )
}

/// What the answer says that hands out the capability `token` issued on `terms`.
pub open spec fn acceptance(
    terms: MintTerms,
    token: Seq<char>,
    issuer: Seq<char>,
    issuer_label: Seq<char>,
    appended: Option<bool>,
) -> PairResponseView {
    PairResponseView::Accepted {
        token,
        granted: texts(terms.abilities@),
        not_after: terms.not_after,
        issuer,
        issuer_label,
        rooted: terms.want_roots && appended == Some(true),
    }
}

/// The answer that hands out the capability `token` issued on `terms`. `appended` is whether the
/// roots now list the node, where they could be written.
pub fn accepted(
    terms: MintTerms,
    token: String,
    issuer: String,
    issuer_label: String,
    appended: Option<bool>,
) -> (r: PairResponse)
    ensures
        r@ == acceptance(terms, token@, issuer@, issuer_label@, appended),
        r matches PairResponse::Accepted {
            token: sent,
            granted,
            not_after,
            issuer: by,
            issuer_label: label,
            rooted,
        } && {
            &&& sent == token
            &&& granted == terms.abilities
            &&& not_after == terms.not_after
            &&& by == issuer
            &&& label == issuer_label
            &&& rooted <==> terms.want_roots && appended == Some(true)
        },
{
    let rooted = terms.want_roots && match appended {
        Some(b) => b,
        None => false,
    };
    PairResponse::Accepted {
        token,
        granted: terms.abilities,
        not_after: terms.not_after,
        issuer,
        issuer_label,
        rooted,
    }
}

/// The answer to an accepted request: what was issued, or that it could not be.
pub fn mint_reply(minted: Result<PairResponse, MintError>) -> (r: PairResponse)
    ensures
        match minted {
            Ok(a) => r == a,
            Err(e) => r@ == (PairResponseView::Denied {
                reason: "mint failed: "@ + mint_error_text(e),
            }),
        },
        minted matches Err(e) ==> (r matches PairResponse::Denied { reason } && reason@
            == "mint failed: "@ + mint_error_text(e)),
{
    match minted {
        Ok(a) => a,
        Err(e) => {
            let mut reason = "mint failed: ".to_owned();
            reason.append(e.message().as_str());
            PairResponse::denied(reason.as_str())
        },
    }
}

/// The root that one line of the roots file lists: what stands before a `#`, trimmed.
pub open spec fn root_of_line(line: Seq<char>) -> Seq<char> {
    trimmed(before(line, '#'))
}

/// Whether the roots file with the text `text` lists `id`.
pub open spec fn lists_root(text: Seq<char>, id: Seq<char>) -> bool {
    exists|i: int| 0 <= i < lines(text).len() && root_of_line(#[trigger] lines(text)[i]) == id
}

/// A text lists what its first line lists and what the rest of it lists.
proof fn lemma_lists_root_step(text: Seq<char>, id: Seq<char>)
    requires
        text.len() > 0,
    ensures
        ({
            let n = find(text, '\n');
            &&& 0 <= n <= text.len()
            &&& n == text.len() ==> lists_root(text, id) == (root_of_line(text) == id)
            &&& n < text.len() ==> lists_root(text, id) == (root_of_line(without_cr(text.take(n)))
                == id || lists_root(text.skip(n + 1), id))
        }),
{
    lemma_find(text, '\n');
    let n = find(text, '\n');
    let all = lines(text);
    if n == text.len() {
        assert(all[0] == text);
    } else {
        let rest = lines(text.skip(n + 1));
        assert(all[0] == without_cr(text.take(n)));
        assert forall|i: int| 0 <= i < rest.len() implies rest[i] == #[trigger] all[i + 1] by {}
        if lists_root(text, id) {
            let i = choose|i: int| 0 <= i < all.len() && root_of_line(#[trigger] all[i]) == id;
            if i > 0 {
                assert(rest[i - 1] == all[i]);
            }
        }
        if lists_root(text.skip(n + 1), id) {
            let i = choose|i: int| 0 <= i < rest.len() && root_of_line(#[trigger] rest[i]) == id;
            assert(all[i + 1] == rest[i]);
        }
    }
}

/// Whether the roots file with the text `text` lists `id`.
pub fn roots_list(text: &str, id: &str) -> (r: bool)
    ensures
        r == lists_root(text@, id@),
{
    let v = chars_of(text);
    let mut from: usize = 0;
    assert(v@.skip(0) == v@);
    while from < v.len()
        invariant
            from <= v@.len(),
            v@ == text@,
            lists_root(text@, id@) == lists_root(v@.skip(from as int), id@),
        decreases v@.len() - from,
    {
        let ghost rest = v@.skip(from as int);
        proof {
            lemma_lists_root_step(rest, id@);
            assert(v@.subrange(from as int, v@.len() as int) == rest);
        }
        let end: usize = find_char(&v, from, v.len(), '\n');
        let mut to: usize = end;
        if end < v.len() && from < end && v[end - 1] == '\r' {
            to = end - 1;
        }
        let ghost line = v@.subrange(from as int, to as int);
        proof {
            if end < v@.len() {
                let taken = rest.take(end - from);
                assert(taken == v@.subrange(from as int, end as int));
                if from < end {
                    assert(taken.last() == v@[end - 1]);
                }
                assert(line == without_cr(taken));
                assert(rest.skip(end - from + 1) == v@.skip(end + 1));
            } else {
                assert(line == rest);
            }
        }
        let hash: usize = find_char(&v, from, to, '#');
        assert(v@.subrange(from as int, hash as int) == before(line, '#'));
        let root = trim(string_of(&v, from, hash).as_str());
        if same_text(root.as_str(), id) {
            return true;
        }
        if end == v.len() {
            return false;
        }
        from = end + 1;
    }
    false
}

/// What to do to the roots file.
#[derive(Debug)]
pub struct RootsUpdate {
    /// The text to append, where there is any.
    pub append: Option<String>,
    /// Whether the file lists the node once that is done.
    pub listed: bool,
}

/// The line that adds `id` to the roots file.
pub open spec fn root_line(id: Seq<char>) -> Seq<char> {
    id.push('\n')
}

/// Whether the last line of a text has its end, where there is one.
pub open spec fn complete(text: Seq<char>) -> bool {
    text.len() == 0 || text.last() == '\n'
}

/// What adds `id` to the roots file with the text `text`: its line, on a line of its own.
pub open spec fn root_addition(text: Seq<char>, id: Seq<char>) -> Seq<char> {
    if complete(text) {
        root_line(id)
    } else {
        seq!['\n'] + root_line(id)
    }
}

/// How `node_id_hex` is added to the roots file whose text is `existing`, where it could be read:
/// its line is appended unless the file lists it as it is given. A last line without its end gets
/// that first. What a line lists has no white space around it, so neither has what is then listed.
pub fn append_root(existing: Option<String>, node_id_hex: &str) -> (r: RootsUpdate)
    ensures
        ({
            let text = match existing {
                Some(t) => t@,
                None => Seq::empty(),
            };
            let id = node_id_hex@;
            if lists_root(text, id) {
                r.append is None && r.listed
            } else {
                &&& r.append matches Some(a) && a@ == root_addition(text, id)
                &&& r.listed == lists_root(text + root_addition(text, id), trimmed(id))
            }
        }),
        r.append matches Some(a) ==> {
            let ended = existing is None || existing->0@.len() == 0 || existing->0@.last() == '\n';
            &&& ended ==> a@ == node_id_hex@ + seq!['\n']
            &&& !ended ==> a@ == seq!['\n'] + node_id_hex@ + seq!['\n']
        },
        plain_root(trimmed(node_id_hex@)) ==> r.listed,
        node_id(node_id_hex@) is Ok ==> r.listed,
{
    let text = match existing {
        Some(t) => t,
        None => String::new(),
    };
    if roots_list(text.as_str(), node_id_hex) {
        return RootsUpdate { append: None, listed: true };
    }
    let v = chars_of(text.as_str());
    let mut line = String::new();
    if v.len() > 0 && v[v.len() - 1] != '\n' {
        line.push('\n');
    }
    line.append(node_id_hex);
    line.push('\n');
    assert(line@ == root_addition(text@, node_id_hex@));
    let grown = text.concat(line.as_str());
    let listed = roots_list(grown.as_str(), trim(node_id_hex).as_str());
    proof {
        appended_roots_are_listed(text@, node_id_hex@, trimmed(node_id_hex@));
        if node_id(node_id_hex@) is Ok {
            node_ids_are_plain_roots(node_id_hex@);
        }
    }
    RootsUpdate { append: Some(line), listed }
}

/// A request that a node sends in its own name on the pairing topic reaches a human, unless it asks
/// for nothing; in another node's name it never does. By default a request asks for something.
pub proof fn requests_in_ones_own_name_are_heard(pr: PairRequestView, from: Seq<char>)
    ensures
        refusal(TOPIC@, from, Ok(pr)) is None <==> pr.from_node == from && pr.abilities.len() > 0,
        admin_abilities().len() > 0,
{
}

/// The accept prompt shows each request as it was made: whatever a snapshot gives for a parked
/// request has that request's own sender, label, abilities, lifetime and wish for roots.
pub proof fn prompts_show_the_request_as_made<D>(
    state: DaemonState<D>,
    now: u64,
    rows: Vec<PendingView>,
    i: int,
)
    requires
        call_ensures(DaemonState::<D>::snapshot, (&state, now), rows),
        0 <= i < rows@.len(),
    ensures
        ({
            let asked = state.parked()[rows@[i].id].req;
            &&& state.parked().contains_key(rows@[i].id)
            &&& rows@[i].from_node@ == asked.from_node@
            &&& rows@[i].label@ == asked.label@
            &&& rows@[i].abilities@ == asked.abilities@
            &&& rows@[i].ttl_secs == asked.ttl_secs
            &&& rows@[i].want_roots == asked.want_roots
        }),
{
}

/// A request that waits is shown once, and one that does not is not shown.
pub proof fn waiting_requests_are_shown_once<D>(
    state: DaemonState<D>,
    now: u64,
    rows: Vec<PendingView>,
    id: u64,
)
    requires
        call_ensures(DaemonState::<D>::snapshot, (&state, now), rows),
    ensures
        (state.parked().contains_key(id) && state.parked()[id].decide is Some) <==> exists|i: int|
            0 <= i < rows@.len() && (#[trigger] rows@[i]).id == id,
        forall|i: int, j: int|
            0 <= i < rows@.len() && 0 <= j < rows@.len() && (#[trigger] rows@[i]).id == (
            #[trigger] rows@[j]).id ==> i == j,
{
    if exists|i: int| 0 <= i < rows@.len() && (#[trigger] rows@[i]).id == id {
        let i = choose|i: int| 0 <= i < rows@.len() && (#[trigger] rows@[i]).id == id;
        assert(state.parked()[rows@[i].id].decide is Some);
    }
    if undecided(state.parked(), id) {
        assert(state.parked()[id].decide is Some);
    }
    assert forall|i: int, j: int|
        0 <= i < rows@.len() && 0 <= j < rows@.len() && (#[trigger] rows@[i]).id == (
        #[trigger] rows@[j]).id implies i == j by {
        if i < j {
            assert(rows@[i].id < rows@[j].id);
        } else if j < i {
            assert(rows@[j].id < rows@[i].id);
        }
    }
}

/// A prompt carries what its request says, as plain values.
pub proof fn prompts_carry_the_request<D>(id: u64, p: Pending<D>, now: u64)
    ensures
        ({
            let shown = prompt(id, p, now);
            &&& shown.id == id
            &&& shown.from_node == p.req.from_node@
            &&& shown.label == p.req.label@
            &&& shown.abilities == texts(p.req.abilities@)
            &&& shown.ttl_secs == p.req.ttl_secs
            &&& shown.want_roots == p.req.want_roots
            &&& p.created <= now ==> shown.age_secs == now - p.created
            &&& p.created > now ==> shown.age_secs == 0
        }),
{
}

/// A capability is issued on the terms asked: whoever gets terms gets the abilities, the nonce and
/// the roots that it asked for, whatever its lifetime, and a lifetime of just so many seconds.
pub proof fn terms_are_those_asked_for(
    pr: PairRequest,
    now: u64,
    minted: Result<MintTerms, MintError>,
)
    requires
        call_ensures(mint_terms, (&pr, now), minted),
    ensures
        minted matches Ok(t) ==> {
            &&& t.abilities@ == pr.abilities@
            &&& t.want_roots <==> pr.want_roots
            &&& t.nonce == pr.nonce
            &&& t.not_after == 0 <==> pr.ttl_secs == 0
            &&& pr.ttl_secs > 0 ==> t.not_after - now == pr.ttl_secs
        },
{
}

/// Two requests that ask the same but for how long get terms that are the same but for their end.
pub proof fn a_lifetime_changes_only_the_end(
    a: PairRequest,
    b: PairRequest,
    now: u64,
    for_a: Result<MintTerms, MintError>,
    for_b: Result<MintTerms, MintError>,
)
    requires
        call_ensures(mint_terms, (&a, now), for_a),
        call_ensures(mint_terms, (&b, now), for_b),
        a.from_node@ == b.from_node@,
        a.abilities@ == b.abilities@,
        a.want_roots == b.want_roots,
        a.nonce == b.nonce,
        for_a is Ok,
        for_b is Ok,
    ensures
        for_a->Ok_0.audience@ == for_b->Ok_0.audience@,
        for_a->Ok_0.abilities@ == for_b->Ok_0.abilities@,
        for_a->Ok_0.want_roots == for_b->Ok_0.want_roots,
        for_a->Ok_0.nonce == for_b->Ok_0.nonce,
{
}

/// A request that is parked waits for its decision.
pub proof fn parked_requests_wait<D>(
    m: Map<u64, Pending<D>>,
    id: u64,
    req: PairRequest,
    now: u64,
    decide: D,
)
    ensures
        undecided(after_parking(m, id, req, now, decide), id),
        forall|k: u64|
            k != id ==> undecided(after_parking(m, id, req, now, decide), k) == #[trigger] undecided(
                m,
                k,
            ),
{
}

/// A decision is taken once: a request that is decided waits no longer, and no other request is
/// touched.
pub proof fn decisions_are_taken_once<D>(m: Map<u64, Pending<D>>, id: u64)
    ensures
        !undecided(after_deciding(m, id), id),
        after_deciding(after_deciding(m, id), id) == after_deciding(m, id),
        forall|k: u64|
            k != id ==> #[trigger] undecided(after_deciding(m, id), k) == undecided(m, k),
        forall|k: u64| #[trigger]
            after_deciding(m, id).contains_key(k) <==> m.contains_key(k),
{
}

/// A run that parks fewer requests than there are ids has handed out the ids below the next one.
proof fn lemma_ids_count_up<D>(run: Seq<Step<D>>)
    requires
        parkings(run) < u64::MAX,
    ensures
        after_run(run).next == parkings(run) + 1,
        forall|id: u64| #[trigger]
            after_run(run).parked.contains_key(id) ==> 1 <= id <= parkings(run),
    decreases run.len(),
{
    if run.len() > 0 {
        lemma_ids_count_up(run.drop_last());
    }
}

/// A longer run parks no fewer requests.
proof fn lemma_parkings_grow<D>(run: Seq<Step<D>>, i: int, j: int)
    requires
        0 <= i <= j <= run.len(),
    ensures
        parkings(run.take(i)) <= parkings(run.take(j)),
    decreases j - i,
{
    if i < j {
        assert(run.take(i + 1).drop_last() == run.take(i));
        lemma_parkings_grow(run, i + 1, j);
    }
}

/// Whatever happens to a fresh state, the requests that are parked get the ids `1`, `2`, `3` and so
/// on: the step that parks one more request than the steps before it gives it that number. Refused
/// requests, decisions and the ends of waits take no id. This holds as long as there are ids.
pub proof fn parked_requests_are_numbered<D>(run: Seq<Step<D>>, i: int)
    requires
        0 <= i < run.len(),
        parkings(run.take(i)) < u64::MAX,
    ensures
        parks(run[i]) ==> id_given(run, i) == parkings(run.take(i + 1)),
        !parks(run[i]) ==> after_run(run.take(i + 1)).next == after_run(run.take(i)).next,
        parkings(run.take(i + 1)) == parkings(run.take(i)) + if parks(run[i]) {
            1int
        } else {
            0int
        },
{
    lemma_ids_count_up(run.take(i));
    assert(run.take(i + 1).drop_last() == run.take(i));
}

/// No id is given twice, also after the request that had it is gone. This holds as long as there
/// are ids.
pub proof fn ids_are_never_given_twice<D>(run: Seq<Step<D>>, i: int, j: int)
    requires
        0 <= i < j < run.len(),
        parks(run[i]),
        parks(run[j]),
        parkings(run) <= u64::MAX,
    ensures
        id_given(run, i) < id_given(run, j),
        !after_run(run.take(j)).parked.contains_key(id_given(run, j)),
{
    assert(run.take(run.len() as int) == run);
    assert(run.take(i + 1).drop_last() == run.take(i));
    assert(run.take(j + 1).drop_last() == run.take(j));
    lemma_parkings_grow(run, i + 1, j);
    lemma_parkings_grow(run, j + 1, run.len() as int);
    lemma_ids_count_up(run.take(i));
    lemma_ids_count_up(run.take(j));
}

/// A capability never ends exactly where no end was asked for.
pub proof fn only_endless_requests_never_expire(now: u64, ttl_secs: u64)
    ensures
        expiry(now, ttl_secs) == 0 <==> ttl_secs == 0,
        ttl_secs > 0 ==> expiry(now, ttl_secs) > now,
{
}

/// The asking device waits for an answer longer than a request stays parked.
pub proof fn answers_arrive_in_time()
    ensures
        DECISION_TIMEOUT_SECS * 1000 < REQUEST_TIMEOUT_MS,
{
}

/// What is granted arrives: the asking device stores the issued token against its issuer, and
/// reports the abilities that it asked for and the end that it asked for.
pub proof fn pairing_delivers_the_capability(
    pr: PairRequestView,
    now: u64,
    terms: MintTerms,
    token: Seq<char>,
    issuer: Seq<char>,
    issuer_label: Seq<char>,
    appended: Option<bool>,
    alias: Seq<char>,
)
    requires
        terms_for(pr, now, terms),
    ensures
        ({
            let answer = acceptance(terms, token, issuer, issuer_label, appended);
            let outcome = outcome_of(answer, alias);
            &&& outcome.accepted
            &&& outcome.granted == pr.abilities
            &&& outcome.not_after == expiry(now, pr.ttl_secs)
            &&& pr.ttl_secs == 0 ==> outcome.not_after == 0
            &&& pr.ttl_secs > 0 ==> outcome.not_after == now + pr.ttl_secs
            &&& outcome.issuer == Some(issuer)
            &&& outcome.alias == Some(alias)
            &&& outcome.rooted <==> pr.want_roots && appended == Some(true)
            &&& terms.want_roots == pr.want_roots
            &&& stored_for(answer, alias) == Some((alias, issuer, token))
        }),
{
}

/// Pairing from end to end: where terms are found for a request, the answer made of them with a token
/// leaves the asking device with the whole token stored against the issuer, the abilities that it
/// asked for, and the roots exactly where it asked for them and they could be written.
pub proof fn accepted_requests_get_what_they_ask(
    pr: PairRequest,
    now: u64,
    terms: MintTerms,
    token: String,
    issuer: String,
    issuer_label: String,
    appended: Option<bool>,
    answer: PairResponse,
    c: Conclusion,
)
    requires
        call_ensures(mint_terms, (&pr, now), Ok(terms)),
        call_ensures(accepted, (terms, token, issuer, issuer_label, appended), answer),
        call_ensures(conclude, (answer,), c),
    ensures
        c.outcome.accepted,
        c.outcome.rooted <==> pr.want_roots && appended == Some(true),
        c.outcome.granted@ == pr.abilities@,
        c.outcome.not_after == 0 <==> pr.ttl_secs == 0,
        pr.ttl_secs > 0 ==> c.outcome.not_after == now + pr.ttl_secs,
        c.outcome.issuer is Some && c.outcome.issuer->0@ == issuer@,
        c.store is Some && c.store->0.cap@ == token@ && c.store->0.node_id@ == issuer@,
{
}

/// A denial arrives: the asking device reports its reason, and stores nothing.
pub proof fn denials_are_reported(reason: Seq<char>, alias: Seq<char>)
    ensures
        ({
            let answer = PairResponseView::Denied { reason };
            let outcome = outcome_of(answer, alias);
            &&& !outcome.accepted
            &&& outcome.reason == Some(reason)
            &&& outcome.granted.len() == 0
            &&& !outcome.rooted
            &&& stored_for(answer, alias) is None
        }),
{
}

/// The lines of a text whose last line is ended are followed by those of what is appended.
proof fn lemma_lines_append(text: Seq<char>, more: Seq<char>)
    requires
        complete(text),
    ensures
        lines(text + more) == lines(text) + lines(more),
    decreases text.len(),
{
    if text.len() == 0 {
        assert(text + more == more);
        assert(lines(text) + lines(more) == lines(more));
    } else {
        let n = find(text, '\n');
        lemma_find(text, '\n');
        assert(n < text.len()) by {
            if n == text.len() {
                assert(text[text.len() - 1] == '\n');
            }
        }
        let both = text + more;
        lemma_find_is(both, '\n', n);
        let rest = text.skip(n + 1);
        assert(both.take(n) == text.take(n));
        assert(both.skip(n + 1) == rest + more);
        if rest.len() > 0 {
            assert(rest.last() == text.last());
        }
        lemma_lines_append(rest, more);
        assert(lines(both) == lines(text) + lines(more));
    }
}

/// What is appended after an ended line is listed beside what was listed before.
pub proof fn roots_grow(text: Seq<char>, more: Seq<char>, id: Seq<char>)
    requires
        text.len() == 0 || text.last() == '\n',
    ensures
        lists_root(text + more, id) <==> lists_root(text, id) || lists_root(more, id),
{
    lemma_lines_append(text, more);
    let a = lines(text);
    let b = lines(more);
    let both = lines(text + more);
    if lists_root(text + more, id) {
        let i = choose|i: int| 0 <= i < both.len() && root_of_line(#[trigger] both[i]) == id;
        if i < a.len() {
            assert(a[i] == both[i]);
        } else {
            assert(b[i - a.len()] == both[i]);
        }
    }
    if lists_root(text, id) {
        let i = choose|i: int| 0 <= i < a.len() && root_of_line(#[trigger] a[i]) == id;
        assert(both[i] == a[i]);
    }
    if lists_root(more, id) {
        let i = choose|i: int| 0 <= i < b.len() && root_of_line(#[trigger] b[i]) == id;
        assert(both[a.len() + i] == b[i]);
    }
}

/// Whether a line can list `id` as it is: it holds no comment sign, no line feed and no white space
/// at its ends.
pub open spec fn plain_root(id: Seq<char>) -> bool {
    &&& trimmed(id) == id
    &&& forall|i: int| 0 <= i < id.len() ==> #[trigger] id[i] != '#' && id[i] != '\n'
}

/// The line for a plain root lists it, and nothing else.
pub proof fn root_lines_list_their_root(id: Seq<char>, other: Seq<char>)
    requires
        plain_root(id),
    ensures
        lists_root(root_line(id), other) <==> other == id,
{
    let l = root_line(id);
    let n = id.len() as int;
    let rest = l.skip(n + 1);
    assert(find(l, '\n') == n) by {
        assert forall|i: int| 0 <= i < n implies l[i] != '\n' by {
            assert(id[i] == l[i]);
        }
        lemma_find_is(l, '\n', n);
    }
    assert(l.take(n) == id);
    assert(rest == Seq::<char>::empty());
    assert(!lists_root(rest, other)) by {
        assert(lines(rest).len() == 0);
    }
    assert(without_cr(id) == id) by {
        lemma_trimmed_ends(id);
    }
    assert(root_of_line(id) == id) by {
        lemma_find_is(id, '#', n);
        assert(before(id, '#') == id);
    }
    lemma_lists_root_step(l, other);
}

/// A node id is a plain root, white space around it aside.
pub proof fn node_ids_are_plain_roots(id: Seq<char>)
    requires
        node_id(id) is Ok,
    ensures
        plain_root(trimmed(id)),
{
    let root = trimmed(id);
    node_ids_are_64_hex_digits(id);
    lemma_trimmed_ends(id);
    lemma_trimmed_same(root);
    assert forall|i: int| 0 <= i < root.len() implies #[trigger] root[i] != '#' && root[i]
        != '\n' by {
        assert(ascii_hex_digit(root[i]));
    }
}

/// A carriage return at the end of a line does not change the root that it lists.
proof fn lemma_root_without_cr(line: Seq<char>)
    ensures
        root_of_line(without_cr(line)) == root_of_line(line),
{
    let short = without_cr(line);
    lemma_find(line, '#');
    let n = find(line, '#');
    if line.len() > 0 && line.last() == '\r' {
        if n < line.len() {
            lemma_find_is(short, '#', n);
            assert(short.take(n) == line.take(n));
        } else {
            lemma_find_is(short, '#', n - 1);
            assert(before(line, '#') == line && before(short, '#') == short);
            assert(line == Seq::<char>::empty() + short + seq!['\r']);
            trimming_ignores_white_space_around(Seq::empty(), short, seq!['\r']);
        }
    }
}

/// Ending the last line of a text does not change what the text lists.
proof fn lemma_ending_a_line(text: Seq<char>, id: Seq<char>)
    requires
        !complete(text),
    ensures
        lists_root(text.push('\n'), id) == lists_root(text, id),
    decreases text.len(),
{
    let l = text.push('\n');
    let n = find(text, '\n');
    lemma_find(text, '\n');
    assert forall|i: int| 0 <= i < n implies l[i] != '\n' by {
        assert(text[i] == l[i]);
    }
    lemma_find_is(l, '\n', n);
    lemma_lists_root_step(text, id);
    lemma_lists_root_step(l, id);
    assert(l.take(n) == text.take(n));
    if n == text.len() {
        assert(text.take(n) == text);
        assert(l.skip(n + 1) == Seq::<char>::empty());
        assert(lines(l.skip(n + 1)).len() == 0);
        lemma_root_without_cr(text);
    } else {
        let rest = text.skip(n + 1);
        assert(rest.len() > 0 && rest.last() == text.last());
        assert(l.skip(n + 1) == rest.push('\n'));
        lemma_ending_a_line(rest, id);
    }
}

/// The last line of a roots file lists the same with and without its end.
pub proof fn the_last_line_needs_no_end(text: Seq<char>, id: Seq<char>)
    requires
        text.len() > 0,
        text.last() != '\n',
    ensures
        lists_root(text + seq!['\n'], id) <==> lists_root(text, id),
{
    assert(text + seq!['\n'] == text.push('\n'));
    lemma_ending_a_line(text, id);
}

/// A line lists what stands before its comment, white space around that aside, and nothing else.
pub proof fn lines_list_what_stands_before_a_comment(
    front: Seq<char>,
    comment: Seq<char>,
    other: Seq<char>,
)
    requires
        forall|i: int| 0 <= i < front.len() ==> #[trigger] front[i] != '#' && front[i] != '\n',
        forall|i: int| 0 <= i < comment.len() ==> #[trigger] comment[i] != '\n',
    ensures
        lists_root(front + seq!['#'] + comment + seq!['\n'], other) <==> other == trimmed(front),
        lists_root(front + seq!['\n'], other) <==> other == trimmed(front),
{
    let line = front + seq!['#'] + comment;
    let l = line + seq!['\n'];
    let n = line.len() as int;
    let f = front.len() as int;
    assert forall|i: int| 0 <= i < n implies l[i] != '\n' by {
        if i < f {
            assert(l[i] == front[i]);
        } else if i > f {
            assert(l[i] == comment[i - f - 1]);
        }
    }
    lemma_find_is(l, '\n', n);
    assert(l.take(n) == line);
    assert(l.skip(n + 1) == Seq::<char>::empty());
    assert(lines(l.skip(n + 1)).len() == 0);
    lemma_lists_root_step(l, other);
    lemma_root_without_cr(line);
    assert forall|i: int| 0 <= i < f implies line[i] != '#' by {
        assert(line[i] == front[i]);
    }
    lemma_find_is(line, '#', f);
    assert(line.take(f) == front);

    let m = front + seq!['\n'];
    assert forall|i: int| 0 <= i < f implies m[i] != '\n' by {
        assert(m[i] == front[i]);
    }
    lemma_find_is(m, '\n', f);
    assert(m.take(f) == front);
    assert(m.skip(f + 1) == Seq::<char>::empty());
    assert(lines(m.skip(f + 1)).len() == 0);
    lemma_lists_root_step(m, other);
    lemma_root_without_cr(front);
    lemma_find_is(front, '#', f);
    assert(front.take(f) == front);
}

/// The line for a plain root lists it, also with white space around it.
proof fn lemma_padded_root_line(id: Seq<char>)
    requires
        plain_root(trimmed(id)),
    ensures
        lists_root(root_line(id), trimmed(id)),
    decreases id.len(),
{
    let root = trimmed(id);
    let l = root_line(id);
    let n = find(l, '\n');
    let (a, b) = lemma_trimmed_span(id);
    lemma_find(l, '\n');
    assert(n <= id.len()) by {
        assert(l[id.len() as int] == '\n');
    }
    lemma_lists_root_step(l, root);
    assert forall|i: int| a <= i < b implies id[i] != '#' && id[i] != '\n' by {
        assert(root[i - a] == id[i]);
    }
    if n < a && a < b {
        let rest = id.skip(n + 1);
        assert forall|i: int| 0 <= i < a - n - 1 || b - n - 1 <= i < rest.len() implies white_space(
            #[trigger] rest[i],
        ) by {
            assert(rest[i] == id[n + 1 + i]);
        }
        lemma_trimmed_is(rest, a - n - 1, b - n - 1);
        assert(rest.subrange(a - n - 1, b - n - 1) == id.subrange(a, b));
        assert(l.skip(n + 1) == root_line(rest));
        lemma_padded_root_line(rest);
    } else {
        let line = l.take(n);
        assert(line == id.take(n));
        let (c, d) = if a < b {
            (a, b)
        } else {
            (0int, 0int)
        };
        assert(a < b ==> b <= n) by {
            if a < b && n < b {
                assert(id[n] == l[n]);
            }
        }
        assert forall|i: int| 0 <= i < c || d <= i < line.len() implies white_space(
            #[trigger] line[i],
        ) by {
            assert(line[i] == id[i]);
        }
        lemma_trimmed_is(line, c, d);
        assert(line.subrange(c, d) == root);
        assert forall|i: int| 0 <= i < n implies line[i] != '#' by {
            if !(c <= i < d) {
                assert(white_space(line[i]));
            }
        }
        lemma_find_is(line, '#', n);
        assert(before(line, '#') == line);
        lemma_root_without_cr(line);
    }
}

/// Appending a root to a roots file keeps everything that the file listed, and leaves its last line
/// ended. A plain root is listed afterwards, white space around it aside. Where it has none, nothing
/// else is listed, and a second time there is nothing to append.
pub proof fn appended_roots_are_listed(text: Seq<char>, id: Seq<char>, other: Seq<char>)
    ensures
        ({
            let grown = text + root_addition(text, id);
            &&& complete(grown)
            &&& lists_root(text, other) ==> lists_root(grown, other)
            &&& plain_root(trimmed(id)) ==> lists_root(grown, trimmed(id))
            &&& plain_root(id) ==> (lists_root(grown, other) <==> lists_root(text, other) || other
                == id)
        }),
{
    let ended = if complete(text) {
        text
    } else {
        text.push('\n')
    };
    let grown = text + root_addition(text, id);
    assert(grown == ended + root_line(id));
    assert(grown.last() == '\n');
    if !complete(text) {
        lemma_ending_a_line(text, other);
    }
    roots_grow(ended, root_line(id), other);
    roots_grow(ended, root_line(id), trimmed(id));
    if plain_root(trimmed(id)) {
        lemma_padded_root_line(id);
    }
    if plain_root(id) {
        root_lines_list_their_root(id, other);
    }
}

} // verus!
