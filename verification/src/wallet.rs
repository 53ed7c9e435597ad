//! The wallet of capabilities: one entry for each alias, kept in the order of the aliases.
use vstd::prelude::*;
use vstd::string::*;

use crate::text::{chars_of, same_text, texts};

verus! {

/// The capabilities held, by alias.
#[derive(Debug)]
pub struct Wallet {
    /// The entries, by increasing alias.
    pub entries: Vec<NamedEntry>,
}

/// An entry with its alias.
#[derive(Debug)]
pub struct NamedEntry {
    pub alias: String,
    pub entry: WalletEntry,
}

/// One capability.
#[derive(Debug, Clone)]
pub struct WalletEntry {
    /// The target node (64 hex) that the capability applies to.
    pub node_id: String,
    /// The hex capability token.
    pub cap: String,
    pub orgs: Vec<String>,
    pub workspaces: Vec<String>,
}

/// What a [`WalletEntry`] says.
pub ghost struct WalletEntryView {
    pub node_id: Seq<char>,
    pub cap: Seq<char>,
    pub orgs: Seq<Seq<char>>,
    pub workspaces: Seq<Seq<char>>,
}

impl View for WalletEntry {
    type V = WalletEntryView;

    open spec fn view(&self) -> WalletEntryView {
        WalletEntryView {
            node_id: self.node_id@,
            cap: self.cap@,
            orgs: texts(self.orgs@),
            workspaces: texts(self.workspaces@),
        }
    }
}

/// Whether `a` comes before `b` in the order of code points.
pub open spec fn text_before(a: Seq<char>, b: Seq<char>) -> bool
    decreases a.len(),
{
    if b.len() == 0 {
        false
    } else if a.len() == 0 {
        true
    } else if a[0] != b[0] {
        a[0] < b[0]
    } else {
        text_before(a.skip(1), b.skip(1))
    }
}

/// No text comes before itself.
pub proof fn text_before_is_irreflexive(a: Seq<char>)
    ensures
        !text_before(a, a),
    decreases a.len(),
{
    if a.len() > 0 {
        text_before_is_irreflexive(a.skip(1));
    }
}

/// Of two different texts one comes before the other.
pub proof fn text_before_is_total(a: Seq<char>, b: Seq<char>)
    ensures
        text_before(a, b) || text_before(b, a) || a == b,
    decreases a.len(),
{
    if a.len() > 0 && b.len() > 0 && a[0] == b[0] {
        text_before_is_total(a.skip(1), b.skip(1));
        if a.skip(1) == b.skip(1) {
            assert(a == seq![a[0]] + a.skip(1));
            assert(b == seq![b[0]] + b.skip(1));
        }
    } else if a.len() == 0 && b.len() == 0 {
        assert(a == b);
    }
}

/// What comes before a text comes before all that follow it.
pub proof fn text_before_is_transitive(a: Seq<char>, b: Seq<char>, c: Seq<char>)
    requires
        text_before(a, b),
        text_before(b, c),
    ensures
        text_before(a, c),
    decreases a.len(),
{
    if a.len() > 0 && b.len() > 0 && c.len() > 0 && a[0] == b[0] && b[0] == c[0] {
        text_before_is_transitive(a.skip(1), b.skip(1), c.skip(1));
    }
}

/// The first character in which two texts differ decides, by its code point; a text comes before
/// every longer one that begins with it.
pub proof fn the_first_difference_decides(a: Seq<char>, b: Seq<char>, k: int)
    requires
        0 <= k <= a.len(),
        k < b.len(),
        a.take(k) == b.take(k),
        k < a.len() ==> a[k] != b[k],
    ensures
        text_before(a, b) <==> k == a.len() || a[k] < b[k],
        text_before(b, a) <==> k < a.len() && b[k] < a[k],
    decreases k,
{
    if k > 0 {
        assert(a[0] == a.take(k)[0] && b[0] == b.take(k)[0]);
        assert(a.skip(1).take(k - 1) == a.take(k).skip(1));
        assert(b.skip(1).take(k - 1) == b.take(k).skip(1));
        the_first_difference_decides(a.skip(1), b.skip(1), k - 1);
    }
}

/// Whether `a` comes before `b` in the order of code points.
fn is_before(a: &str, b: &str) -> (r: bool)
    ensures
        r == text_before(a@, b@),
{
    let v = chars_of(a);
    let w = chars_of(b);
    let mut i: usize = 0;
    assert(v@.skip(0) == v@ && w@.skip(0) == w@);
    loop
        invariant
            i <= v@.len(),
            i <= w@.len(),
            text_before(v@, w@) == text_before(v@.skip(i as int), w@.skip(i as int)),
            v@ == a@,
            w@ == b@,
        decreases v@.len() - i,
    {
        if i == w.len() {
            return false;
        }
        if i == v.len() {
            return true;
        }
        if v[i] != w[i] {
            let c: char = v[i];
            let d: char = w[i];
            return c < d;
        }
        assert(v@.skip(i as int).skip(1) == v@.skip(i + 1));
        assert(w@.skip(i as int).skip(1) == w@.skip(i + 1));
        i += 1;
    }
}

/// Whether the aliases increase from each entry to the next, so that none occurs twice.
pub open spec fn in_order(s: Seq<NamedEntry>) -> bool {
    forall|i: int, j: int|
        0 <= i < j < s.len() ==> text_before(#[trigger] s[i].alias@, #[trigger] s[j].alias@)
}

/// Whether the entry at `i` has the alias `a`.
pub open spec fn stands_at(s: Seq<NamedEntry>, a: Seq<char>, i: int) -> bool {
    0 <= i < s.len() && s[i].alias@ == a
}

/// What the entries hold under each alias.
pub open spec fn held(s: Seq<NamedEntry>) -> Map<Seq<char>, WalletEntryView> {
    Map::new(
        |a: Seq<char>| exists|i: int| stands_at(s, a, i),
        |a: Seq<char>| s[choose|i: int| stands_at(s, a, i)].entry@,
    )
}

/// In ordered entries the one with an alias is the one that is held under it.
proof fn lemma_held(s: Seq<NamedEntry>, i: int)
    requires
        in_order(s),
        0 <= i < s.len(),
    ensures
        held(s).contains_key(s[i].alias@),
        held(s)[s[i].alias@] == s[i].entry@,
{
    let a = s[i].alias@;
    assert(stands_at(s, a, i));
    let k = choose|k: int| stands_at(s, a, k);
    text_before_is_irreflexive(a);
    if k < i {
        assert(text_before(s[k].alias@, s[i].alias@));
    }
    if i < k {
        assert(text_before(s[i].alias@, s[k].alias@));
    }
}

/// Putting `e` at `at` in place of what is there, or in front of it, holds `e` under its alias and
/// leaves the rest.
proof fn lemma_put(s: Seq<NamedEntry>, at: int, e: NamedEntry, t: Seq<NamedEntry>)
    requires
        in_order(s),
        0 <= at <= s.len(),
        forall|i: int| 0 <= i < at ==> text_before(#[trigger] s[i].alias@, e.alias@),
        at < s.len() ==> !text_before(s[at].alias@, e.alias@),
        t == if at < s.len() && s[at].alias@ == e.alias@ {
            s.update(at, e)
        } else {
            s.insert(at, e)
        },
    ensures
        in_order(t),
        held(t) == held(s).insert(e.alias@, e.entry@),
{
    let a = e.alias@;
    let same = at < s.len() && s[at].alias@ == a;
    assert forall|i: int| at <= i < s.len() && !(same && i == at) implies text_before(
        a,
        #[trigger] s[i].alias@,
    ) by {
        if same {
            assert(text_before(s[at].alias@, s[i].alias@));
        } else {
            text_before_is_total(s[at].alias@, a);
            if i > at {
                assert(text_before(s[at].alias@, s[i].alias@));
                text_before_is_transitive(a, s[at].alias@, s[i].alias@);
            }
        }
    }
    assert forall|i: int, j: int| 0 <= i < j < t.len() implies text_before(
        #[trigger] t[i].alias@,
        #[trigger] t[j].alias@,
    ) by {
        let i0 = if same || i <= at { i } else { i - 1 };
        let j0 = if same || j <= at { j } else { j - 1 };
        if i != at && j != at {
            assert(t[i] == s[i0] && t[j] == s[j0]);
        } else if i == at {
            assert(t[j] == s[j0]);
        } else {
            assert(t[i] == s[i0]);
        }
    }
    assert(in_order(t));
    assert(t[at] == e);
    lemma_held(t, at);
    let m = held(s).insert(a, e.entry@);
    assert forall|b: Seq<char>| held(t).contains_key(b) == m.contains_key(b) by {
        if held(t).contains_key(b) && b != a {
            let i = choose|i: int| stands_at(t, b, i);
            let i0 = if same || i <= at { i } else { i - 1 };
            assert(stands_at(s, b, i0));
        }
        if held(s).contains_key(b) && b != a {
            let i = choose|i: int| stands_at(s, b, i);
            let i1 = if same || i < at { i } else { i + 1 };
            assert(stands_at(t, b, i1));
        }
    }
    assert forall|b: Seq<char>| held(t).contains_key(b) implies held(t)[b] == m[b] by {
        if b != a {
            let i = choose|i: int| stands_at(t, b, i);
            let i0 = if same || i <= at { i } else { i - 1 };
            lemma_held(t, i);
            lemma_held(s, i0);
        }
    }
    assert(held(t) =~= m);
}

impl View for Wallet {
    type V = Map<Seq<char>, WalletEntryView>;

    open spec fn view(&self) -> Map<Seq<char>, WalletEntryView> {
        held(self.entries@)
    }
}

impl Default for Wallet {
    fn default() -> (r: Self)
        ensures
            r.ordered(),
            r@ == Map::<Seq<char>, WalletEntryView>::empty(),
            r.entries@.len() == 0,
    {
        let r = Wallet { entries: Vec::new() };
        assert(r@ =~= Map::<Seq<char>, WalletEntryView>::empty());
        r
    }
}

impl Wallet {
    /// Whether the entries stand in the order of their aliases, none twice.
    pub open spec fn ordered(&self) -> bool {
        in_order(self.entries@)
    }

    /// Holds `entry` under `alias`, in place of what was held under it.
    pub fn insert(&mut self, alias: String, entry: WalletEntry)
        requires
            old(self).ordered(),
        ensures
            final(self).ordered(),
            final(self)@ == old(self)@.insert(alias@, entry@),
            exists|i: int|
                0 <= i < final(self).entries@.len() && (#[trigger] final(self).entries@[i]).alias@
                    == alias@ && final(self).entries@[i].entry == entry,
            forall|i: int|
                0 <= i < final(self).entries@.len() ==> (#[trigger] final(self).entries@[i]).alias@
                    == alias@ || old(self).entries@.contains(final(self).entries@[i]),
            forall|i: int|
                0 <= i < old(self).entries@.len() ==> (#[trigger] old(self).entries@[i]).alias@
                    == alias@ || final(self).entries@.contains(old(self).entries@[i]),
    {
        let ghost s = self.entries@;
        let mut at: usize = 0;
        while at < self.entries.len() && is_before(self.entries[at].alias.as_str(), alias.as_str())
            invariant
                self.entries@ == s,
                at <= s.len(),
                forall|i: int| 0 <= i < at ==> text_before(#[trigger] s[i].alias@, alias@),
            decreases s.len() - at,
        {
            at += 1;
        }
        let e = NamedEntry { alias, entry };
        if at < self.entries.len() && same_text(self.entries[at].alias.as_str(), e.alias.as_str()) {
            self.entries[at] = e;
        } else {
            self.entries.insert(at, e);
        }
        proof {
            lemma_put(s, at as int, e, self.entries@);
            let t = self.entries@;
            let same = at < s.len() && s[at as int].alias@ == e.alias@;
            assert(t[at as int] == e);
            assert forall|i: int| 0 <= i < t.len() implies (#[trigger] t[i]).alias@ == e.alias@
                || s.contains(t[i]) by {
                if i != at {
                    let k = if same || i < at { i } else { i - 1 };
                    assert(s[k] == t[i]);
                }
            }
            assert forall|i: int| 0 <= i < s.len() implies (#[trigger] s[i]).alias@ == e.alias@
                || t.contains(s[i]) by {
                if !(same && i == at) {
                    let k = if same || i < at { i } else { i + 1 };
                    assert(t[k] == s[i]);
                }
            }
        }
    }
}

/// The entry for a capability that belongs to no organisation and no workspace.
pub open spec fn plain_entry(node_id: Seq<char>, cap: Seq<char>) -> WalletEntryView {
    WalletEntryView { node_id, cap, orgs: Seq::empty(), workspaces: Seq::empty() }
}

/// What is stored is got back: under its alias a wallet then holds the whole node id and the whole
/// capability, so that the node id still names the same node, and under every other alias what it
/// held before.
pub proof fn what_is_stored_is_got_back(
    wallet: Map<Seq<char>, WalletEntryView>,
    alias: Seq<char>,
    node_id: Seq<char>,
    cap: Seq<char>,
    other: Seq<char>,
)
    ensures
        ({
            let after = wallet.insert(alias, plain_entry(node_id, cap));
            &&& after.contains_key(alias)
            &&& after[alias].node_id == node_id
            &&& after[alias].cap == cap
            &&& after[alias].orgs.len() == 0 && after[alias].workspaces.len() == 0
            &&& crate::util::node_id(after[alias].node_id) == crate::util::node_id(node_id)
            &&& other != alias ==> (after.contains_key(other) <==> wallet.contains_key(other))
            &&& other != alias && wallet.contains_key(other) ==> after[other] == wallet[other]
        }),
{
}

/// A wallet holds under an alias just what its entry with that alias says.
pub proof fn wallets_hold_what_their_entries_say(wallet: Wallet, i: int)
    requires
        wallet.ordered(),
        0 <= i < wallet.entries@.len(),
    ensures
        ({
            let e = wallet.entries@[i];
            &&& wallet@.contains_key(e.alias@)
            &&& wallet@[e.alias@].node_id == e.entry.node_id@
            &&& wallet@[e.alias@].cap == e.entry.cap@
            &&& wallet@[e.alias@].orgs == texts(e.entry.orgs@)
            &&& wallet@[e.alias@].workspaces == texts(e.entry.workspaces@)
        }),
{
    lemma_held(wallet.entries@, i);
}

/// Holds one capability under `alias`, in place of what was held under it. Returns the alias.
pub fn add(wallet: &mut Wallet, alias: &str, node_id: &str, cap: &str) -> (r: String)
    requires
        old(wallet).ordered(),
    ensures
        final(wallet).ordered(),
        final(wallet)@ == old(wallet)@.insert(alias@, plain_entry(node_id@, cap@)),
        r@ == alias@,
        final(wallet)@.contains_key(alias@),
        final(wallet)@[alias@].node_id == node_id@,
        final(wallet)@[alias@].cap == cap@,
        final(wallet)@[alias@].orgs.len() == 0,
        final(wallet)@[alias@].workspaces.len() == 0,
        forall|other: Seq<char>|
            other != alias@ ==> #[trigger] final(wallet)@.contains_key(other) == old(
                wallet)@.contains_key(other),
        forall|other: Seq<char>|
            other != alias@ && old(wallet)@.contains_key(other) ==> #[trigger] final(wallet)@[other]
                == old(wallet)@[other],
        exists|i: int|
            {
                &&& 0 <= i < final(wallet).entries@.len()
                &&& (#[trigger] final(wallet).entries@[i]).alias@ == alias@
                &&& final(wallet).entries@[i].entry.node_id@ == node_id@
                &&& final(wallet).entries@[i].entry.cap@ == cap@
                &&& final(wallet).entries@[i].entry.orgs@.len() == 0
                &&& final(wallet).entries@[i].entry.workspaces@.len() == 0
            },
        forall|i: int|
            0 <= i < old(wallet).entries@.len() ==> (#[trigger] old(wallet).entries@[i]).alias@
                == alias@ || final(wallet).entries@.contains(old(wallet).entries@[i]),
        crate::util::node_id(final(wallet)@[alias@].node_id) == crate::util::node_id(node_id@),
{
    let entry = WalletEntry {
        node_id: node_id.to_owned(),
        cap: cap.to_owned(),
        orgs: Vec::new(),
        workspaces: Vec::new(),
    };
    assert(texts(Seq::<String>::empty()) == Seq::<Seq<char>>::empty());
    wallet.insert(alias.to_owned(), entry);
    alias.to_owned()
}

} // verus!
