//! The pairing protocol: what one device asks of another, and what it is answered. The messages
//! travel over one directed request/reply topic of the mesh.
use vstd::prelude::*;

use crate::text::{copy_texts, texts};

verus! {

/// The single directed request/reply topic for pairing.
pub const TOPIC: &'static str = "ce-fleet/pair";

/// The abilities that let a paired device do everything.
pub open spec fn admin_abilities() -> Seq<Seq<char>> {
    seq![
        "status"@,
        "exec"@,
        "sync"@,
        "delete"@,
        "tunnel"@,
        "deploy"@,
        "kill"@,
        "spawn"@,
        "app:install"@,
    ]
}

/// The abilities asked for by default when two of one's own devices are paired: the exact action
/// strings that a node authorizes against, so that the list makes a full admin.
pub fn default_abilities() -> (r: Vec<String>)
    ensures
        texts(r@) == admin_abilities(),
        r@.len() == 9,
        r@[0]@ == "status"@ && r@[1]@ == "exec"@ && r@[2]@ == "sync"@,
        r@[3]@ == "delete"@ && r@[4]@ == "tunnel"@ && r@[5]@ == "deploy"@,
        r@[6]@ == "kill"@ && r@[7]@ == "spawn"@ && r@[8]@ == "app:install"@,
{
    let mut r: Vec<String> = Vec::new();
    r.push("status".to_owned());
    r.push("exec".to_owned());
    r.push("sync".to_owned());
    r.push("delete".to_owned());
    r.push("tunnel".to_owned());
    r.push("deploy".to_owned());
    r.push("kill".to_owned());
    r.push("spawn".to_owned());
    r.push("app:install".to_owned());
    assert(texts(r@) == admin_abilities());
    r
}

/// A request from one device, asking another to authorize it.
#[derive(Debug)]
pub struct PairRequest {
    /// The asking node's id (64 hex). It must equal the sender that the mesh authenticated.
    pub from_node: String,
    /// A friendly label, shown in the accept prompt.
    pub label: String,
    /// The abilities asked for.
    pub abilities: Vec<String>,
    /// Seconds for which the capability should be valid; `0` means for ever.
    pub ttl_secs: u64,
    /// Whether to be added to the roots of the other device too.
    pub want_roots: bool,
    /// A fresh nonce (unix seconds): it names the issued capability for later revocation.
    pub nonce: u64,
}

/// What a [`PairRequest`] says.
pub ghost struct PairRequestView {
    pub from_node: Seq<char>,
    pub label: Seq<char>,
    pub abilities: Seq<Seq<char>>,
    pub ttl_secs: u64,
    pub want_roots: bool,
    pub nonce: u64,
}

impl View for PairRequest {
    type V = PairRequestView;

    open spec fn view(&self) -> PairRequestView {
        PairRequestView {
            from_node: self.from_node@,
            label: self.label@,
            abilities: texts(self.abilities@),
            ttl_secs: self.ttl_secs,
            want_roots: self.want_roots,
            nonce: self.nonce,
        }
    }
}

impl Clone for PairRequest {
    fn clone(&self) -> (r: Self)
        ensures
            r@ == self@,
            r.from_node@ == self.from_node@,
            r.label@ == self.label@,
            r.abilities@ == self.abilities@,
            r.ttl_secs == self.ttl_secs,
            r.want_roots == self.want_roots,
            r.nonce == self.nonce,
    {
        PairRequest {
            from_node: self.from_node.clone(),
            label: self.label.clone(),
            abilities: copy_texts(&self.abilities),
            ttl_secs: self.ttl_secs,
            want_roots: self.want_roots,
            nonce: self.nonce,
        }
    }
}

/// The answer to a [`PairRequest`].
#[derive(Debug)]
pub enum PairResponse {
    /// Approved.
    Accepted {
        /// The hex capability chain, to be stored in the asking device's wallet.
        token: String,
        /// The abilities granted.
        granted: Vec<String>,
        /// When the capability ends in unix seconds; `0` means never.
        not_after: u64,
        /// The id of the node that issued the capability.
        issuer: String,
        /// Its friendly label.
        issuer_label: String,
        /// Whether the asking node was added to the issuer's roots too.
        rooted: bool,
    },
    /// Declined.
    Denied {
        /// Why.
        reason: String,
    },
}

/// What a [`PairResponse`] says.
pub ghost enum PairResponseView {
    Accepted {
        token: Seq<char>,
        granted: Seq<Seq<char>>,
        not_after: u64,
        issuer: Seq<char>,
        issuer_label: Seq<char>,
        rooted: bool,
    },
    Denied { reason: Seq<char> },
}

impl View for PairResponse {
    type V = PairResponseView;

    open spec fn view(&self) -> PairResponseView {
        match *self {
            PairResponse::Accepted {
                token,
                granted,
                not_after,
                issuer,
                issuer_label,
                rooted,
            } => PairResponseView::Accepted {
                token: token@,
                granted: texts(granted@),
                not_after,
                issuer: issuer@,
                issuer_label: issuer_label@,
                rooted,
            },
            PairResponse::Denied { reason } => PairResponseView::Denied { reason: reason@ },
        }
    }
}

impl Clone for PairResponse {
    fn clone(&self) -> (r: Self)
        ensures
            r@ == self@,
            match (*self, r) {
                (
                    PairResponse::Accepted {
                        token,
                        granted,
                        not_after,
                        issuer,
                        issuer_label,
                        rooted,
                    },
                    PairResponse::Accepted {
                        token: token2,
                        granted: granted2,
                        not_after: not_after2,
                        issuer: issuer2,
                        issuer_label: issuer_label2,
                        rooted: rooted2,
                    },
                ) => {
                    &&& token2@ == token@
                    &&& granted2@ == granted@
                    &&& not_after2 == not_after
                    &&& issuer2@ == issuer@
                    &&& issuer_label2@ == issuer_label@
                    &&& rooted2 == rooted
                },
                (
                    PairResponse::Denied { reason },
                    PairResponse::Denied { reason: reason2 },
                ) => reason2@ == reason@,
                _ => false,
            },
    {
        match self {
            PairResponse::Accepted {
                token,
                granted,
                not_after,
                issuer,
                issuer_label,
                rooted,
            } => PairResponse::Accepted {
                token: token.clone(),
                granted: copy_texts(granted),
                not_after: *not_after,
                issuer: issuer.clone(),
                issuer_label: issuer_label.clone(),
                rooted: *rooted,
            },
            PairResponse::Denied { reason } => PairResponse::Denied { reason: reason.clone() },
        }
    }
}

impl PairResponse {
    /// The answer that declines, for `reason`.
    pub fn denied(reason: &str) -> (r: Self)
        ensures
            r@ == (PairResponseView::Denied { reason: reason@ }),
            r matches PairResponse::Denied { reason: said } && said@ == reason@,
    {
        PairResponse::Denied { reason: reason.to_owned() }
    }
}

} // verus!
