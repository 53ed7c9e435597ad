//! The asking side of pairing: the request that is sent, and what the answer leads to.
use vstd::prelude::*;
use vstd::string::*;
use vstd::utf8::*;

use crate::proto::{
    admin_abilities, default_abilities, PairRequest, PairRequestView, PairResponse,
    PairResponseView,
};
use crate::text::{
    ascii_alphanumeric, ascii_lowercase, ascii_upper, chars_of, digits, is_digit, join, joined,
    lemma_stripped_is, lemma_stripped_span, lemma_trimmed_same, lowercase, no_ascii_upper, push_decimal, string_of,
    stripped, stripped_end, stripped_start, texts, to_lowercase, trim, trimmed,
    trimming_ignores_case, trimming_ignores_white_space_around, white_space,
};
use crate::util::{opt_text, short, short_id};

verus! {

/// How long the asking device waits for an answer, in milliseconds.
pub const REQUEST_TIMEOUT_MS: u64 = 180_000;

/// The result of an attempt to pair.
#[derive(Debug)]
pub struct PairOutcome {
    pub accepted: bool,
    pub alias: Option<String>,
    pub issuer: Option<String>,
    pub granted: Vec<String>,
    pub not_after: u64,
    pub rooted: bool,
    pub reason: Option<String>,
}

/// What a [`PairOutcome`] says.
pub ghost struct PairOutcomeView {
    pub accepted: bool,
    pub alias: Option<Seq<char>>,
    pub issuer: Option<Seq<char>>,
    pub granted: Seq<Seq<char>>,
    pub not_after: u64,
    pub rooted: bool,
    pub reason: Option<Seq<char>>,
}

impl View for PairOutcome {
    type V = PairOutcomeView;

    open spec fn view(&self) -> PairOutcomeView {
        PairOutcomeView {
            accepted: self.accepted,
            alias: opt_text(self.alias),
            issuer: opt_text(self.issuer),
            granted: texts(self.granted@),
            not_after: self.not_after,
            rooted: self.rooted,
            reason: opt_text(self.reason),
        }
    }
}

/// The abilities to ask for: those named, or where none is named all of them.
pub fn abilities_or_default(named: Vec<String>) -> (r: Vec<String>)
    ensures
        texts(r@) == if named@.len() == 0 {
            admin_abilities()
        } else {
            texts(named@)
        },
        named@.len() > 0 ==> r@ == named@,
        named@.len() == 0 ==> call_ensures(default_abilities, (), r),
{
    if named.len() == 0 {
        default_abilities()
    } else {
        named
    }
}

/// The abilities and the lifetime to ask for where either may be left open: all abilities, for
/// ever. An empty list that was given stays empty.
pub fn terms_or_default(abilities: Option<Vec<String>>, ttl_secs: Option<u64>) -> (r: (
    Vec<String>,
    u64,
))
    ensures
        texts(r.0@) == (match abilities {
            Some(a) => texts(a@),
            None => admin_abilities(),
        }),
        r.1 == (match ttl_secs {
            Some(t) => t,
            None => 0,
        }),
        abilities matches Some(a) ==> r.0@ == a@,
        abilities is None ==> call_ensures(default_abilities, (), r.0),
{
    let a = match abilities {
        Some(a) => a,
        None => default_abilities(),
    };
    let t: u64 = match ttl_secs {
        Some(t) => t,
        None => 0,
    };
    (a, t)
}

/// The request that this node sends at `now`.
pub fn pair_request(
    from_node: String,
    label: &str,
    abilities: Vec<String>,
    ttl_secs: u64,
    want_roots: bool,
    now: u64,
) -> (r: PairRequest)
    ensures
        r@ == (PairRequestView {
            from_node: from_node@,
            label: label@,
            abilities: texts(abilities@),
            ttl_secs,
            want_roots,
            nonce: now,
        }),
        r.from_node@ == from_node@,
        r.label@ == label@,
        r.abilities@ == abilities@,
        r.ttl_secs == ttl_secs,
        r.want_roots == want_roots,
        r.nonce == now,
{
    PairRequest {
        from_node,
        label: label.to_owned(),
        abilities,
        ttl_secs,
        want_roots,
        nonce: now,
    }
}

/// `s` with a dash in place of everything but ASCII letters and digits.
pub open spec fn dashed(s: Seq<char>) -> Seq<char> {
    s.map_values(
        |c: char|
            if ascii_alphanumeric(c) {
                c
            } else {
                '-'
            },
    )
}

/// `s` with each run of dashes made one dash.
pub open spec fn single_dashes(s: Seq<char>) -> Seq<char>
    decreases s.len(),
{
    if s.len() == 0 {
        s
    } else {
        let r = single_dashes(s.drop_last());
        if s.last() == '-' && r.len() > 0 && r.last() == '-' {
            r
        } else {
            r.push(s.last())
        }
    }
}

/// The dash, as something to strip.
pub open spec fn dash() -> spec_fn(char) -> bool {
    |c: char| c == '-'
}

/// The words of a lowercased label, with one dash between each two.
pub open spec fn alias_words(lower: Seq<char>) -> Seq<char> {
    stripped(single_dashes(dashed(lower)), dash())
}

/// The alias for a lowercased label: its words, or a short node id where it has none.
pub open spec fn alias_for(lower: Seq<char>, node_id: Seq<char>) -> Seq<char> {
    if alias_words(lower).len() == 0 {
        short(node_id)
    } else {
        alias_words(lower)
    }
}

/// Whether `s` is safe as an alias: small letters, digits and single dashes inside, and not empty.
pub open spec fn wallet_safe(s: Seq<char>) -> bool {
    &&& s.len() > 0
    &&& s[0] != '-'
    &&& s.last() != '-'
    &&& forall|i: int|
        0 <= i < s.len() ==> #[trigger] s[i] == '-' || is_digit(s[i]) || 'a' <= s[i] <= 'z'
    &&& forall|i: int| 0 <= i < s.len() - 1 && #[trigger] s[i] == '-' ==> s[i + 1] != '-'
}

/// Single dashes stay single, and every character comes from the text.
proof fn lemma_single_dashes(s: Seq<char>)
    ensures
        ({
            let r = single_dashes(s);
            &&& forall|i: int| 0 <= i < r.len() ==> s.contains(#[trigger] r[i])
            &&& forall|i: int| 0 <= i < r.len() - 1 && #[trigger] r[i] == '-' ==> r[i + 1] != '-'
        }),
    decreases s.len(),
{
    if s.len() > 0 {
        let t = s.drop_last();
        let q = single_dashes(t);
        let r = single_dashes(s);
        lemma_single_dashes(t);
        assert forall|i: int| 0 <= i < r.len() implies s.contains(#[trigger] r[i]) by {
            if i < q.len() {
                assert(t.contains(q[i]));
                let k = choose|k: int| 0 <= k < t.len() && t[k] == q[i];
                assert(s[k] == q[i]);
            } else {
                assert(s[s.len() - 1] == r[i]);
            }
        }
        assert forall|i: int| 0 <= i < r.len() - 1 && #[trigger] r[i] == '-' implies r[i + 1]
            != '-' by {
            if i + 1 < q.len() {
                assert(q[i] == r[i]);
            }
        }
    }
}

/// An alias made of a lowercased label is wallet-safe: small letters, digits and single dashes
/// between them. Only a label without any letter or digit gives a short node id instead.
pub proof fn aliases_are_wallet_safe(lower: Seq<char>, node_id: Seq<char>)
    requires
        no_ascii_upper(lower),
    ensures
        wallet_safe(alias_for(lower, node_id)) || (alias_for(lower, node_id) == short(node_id)
            && forall|i: int| 0 <= i < lower.len() ==> !ascii_alphanumeric(#[trigger] lower[i])),
{
    let d = dashed(lower);
    let s = single_dashes(d);
    let r = alias_words(lower);
    lemma_single_dashes(d);
    let (a, b) = lemma_stripped_span(s, dash());
    if r.len() > 0 {
        assert forall|i: int| 0 <= i < r.len() implies #[trigger] r[i] == '-' || is_digit(r[i])
            || 'a' <= r[i] <= 'z' by {
            assert(d.contains(s[a + i]));
            let k = choose|k: int| 0 <= k < d.len() && d[k] == s[a + i];
            assert(!ascii_upper(lower[k]));
        }
        assert forall|i: int| 0 <= i < r.len() - 1 && #[trigger] r[i] == '-' implies r[i + 1]
            != '-' by {
            assert(s[a + i] == '-');
        }
    } else {
        assert forall|i: int| 0 <= i < lower.len() implies !ascii_alphanumeric(
            #[trigger] lower[i],
        ) by {
            if ascii_alphanumeric(lower[i]) {
                assert(d[i] == lower[i]);
                lemma_single_dashes_keep(d, i);
                let k = choose|k: int| 0 <= k < s.len() && s[k] == lower[i];
                assert(dash()(s[k]));
            }
        }
    }
}

/// What is no dash is not lost where runs of dashes shrink.
proof fn lemma_single_dashes_keep(s: Seq<char>, i: int)
    requires
        0 <= i < s.len(),
        s[i] != '-',
    ensures
        single_dashes(s).contains(s[i]),
    decreases s.len(),
{
    let t = s.drop_last();
    let q = single_dashes(t);
    let r = single_dashes(s);
    if i < s.len() - 1 {
        lemma_single_dashes_keep(t, i);
        let k = choose|k: int| 0 <= k < q.len() && q[k] == t[i];
        assert(r[k] == q[k]);
    } else {
        assert(r[q.len() as int] == s[i]);
    }
}

/// Whether `s` is made of small hex digits.
pub open spec fn small_hex(s: Seq<char>) -> bool {
    forall|i: int| 0 <= i < s.len() ==> is_digit(#[trigger] s[i]) || 'a' <= s[i] <= 'f'
}

/// Single dashes are left alone.
proof fn lemma_single_dashes_same(s: Seq<char>)
    requires
        forall|i: int| 0 <= i < s.len() - 1 && #[trigger] s[i] == '-' ==> s[i + 1] != '-',
    ensures
        single_dashes(s) == s,
    decreases s.len(),
{
    if s.len() > 0 {
        let t = s.drop_last();
        assert forall|i: int| 0 <= i < t.len() - 1 && #[trigger] t[i] == '-' implies t[i + 1]
            != '-' by {
            assert(s[i] == '-');
        }
        lemma_single_dashes_same(t);
        if t.len() > 0 && t.last() == '-' {
            assert(s[t.len() - 1] == '-');
        }
        assert(t.push(s.last()) == s);
    }
}

/// A wallet-safe text is its own alias.
proof fn lemma_wallet_safe_alias(a: Seq<char>, node_id: Seq<char>)
    requires
        wallet_safe(a),
    ensures
        is_ascii_chars(a),
        trimmed(a) == a,
        ascii_lowercase(a) == a,
        alias_for(a, node_id) == a,
{
    assert forall|i: int| 0 <= i < a.len() implies '\0' <= #[trigger] a[i] <= '\u{7f}' by {}
    assert(a[0] != '-' && a[a.len() - 1] != '-');
    lemma_trimmed_same(a);
    assert(dashed(a) == a);
    lemma_single_dashes_same(a);
}

/// An alias is its own alias, where the node id is written in small hex digits: made of an alias,
/// an alias is that alias. Every alias is wallet-safe or a short node id.
pub proof fn aliases_are_their_own_alias(alias: Seq<char>, node_id: Seq<char>)
    requires
        wallet_safe(alias) || (alias == short(node_id) && small_hex(node_id)),
    ensures
        is_ascii_chars(trimmed(alias)),
        alias_for(ascii_lowercase(trimmed(alias)), node_id) == alias,
{
    if !wallet_safe(alias) {
        assert forall|i: int| 0 <= i < alias.len() implies is_digit(#[trigger] alias[i]) || 'a'
            <= alias[i] <= 'f' by {
            assert(alias[i] == node_id[i]);
        }
        if alias.len() > 0 {
            assert(is_digit(alias[0]) || 'a' <= alias[0] <= 'f');
            assert(is_digit(alias[alias.len() - 1]) || 'a' <= alias[alias.len() - 1] <= 'f');
            assert(wallet_safe(alias));
        }
    }
    if alias.len() > 0 {
        lemma_wallet_safe_alias(alias, node_id);
    } else {
        assert(ascii_lowercase(trimmed(alias)) == Seq::<char>::empty());
        assert(dashed(Seq::<char>::empty()) == Seq::<char>::empty());
    }
}

/// White space around a label does not matter to the alias made of it.
pub proof fn aliases_ignore_white_space_around(
    front: Seq<char>,
    label: Seq<char>,
    back: Seq<char>,
    node_id: Seq<char>,
)
    requires
        forall|i: int| 0 <= i < front.len() ==> white_space(#[trigger] front[i]),
        forall|i: int| 0 <= i < back.len() ==> white_space(#[trigger] back[i]),
    ensures
        alias_for(lowercase(trimmed(front + label + back)), node_id) == alias_for(
            lowercase(trimmed(label)),
            node_id,
        ),
{
    trimming_ignores_white_space_around(front, label, back);
}

/// The case of the ASCII letters in a label does not matter to the alias made of it.
pub proof fn aliases_ignore_case(label: Seq<char>, other: Seq<char>, node_id: Seq<char>)
    requires
        ascii_lowercase(label) == ascii_lowercase(other),
    ensures
        alias_for(lowercase(ascii_lowercase(trimmed(label))), node_id) == alias_for(
            lowercase(ascii_lowercase(trimmed(other))),
            node_id,
        ),
{
    trimming_ignores_case(label);
    trimming_ignores_case(other);
}

/// A run of dashes behind a text that ends otherwise shrinks to one dash.
proof fn lemma_single_dashes_run(a: Seq<char>, n: nat)
    requires
        a.len() > 0,
        a.last() != '-',
        single_dashes(a) == a,
        n > 0,
    ensures
        single_dashes(a + Seq::new(n, |i: int| '-')) == a.push('-'),
    decreases n,
{
    let run = Seq::new(n, |i: int| '-');
    let s = a + run;
    let shorter = Seq::new((n - 1) as nat, |i: int| '-');
    assert(s.drop_last() == a + shorter);
    assert(s.last() == '-');
    if n > 1 {
        lemma_single_dashes_run(a, (n - 1) as nat);
    } else {
        assert(a + shorter == a);
    }
}

/// What follows a text that begins with no dash is shrunk on its own.
proof fn lemma_single_dashes_apart(a: Seq<char>, b: Seq<char>)
    requires
        b.len() > 0,
        b[0] != '-',
    ensures
        single_dashes(a + b) == single_dashes(a) + single_dashes(b),
        single_dashes(b).len() > 0,
    decreases b.len(),
{
    let s = a + b;
    let c = b.drop_last();
    assert(s.drop_last() == a + c);
    if c.len() > 0 {
        lemma_single_dashes_apart(a, c);
        assert((single_dashes(a) + single_dashes(c)).last() == single_dashes(c).last());
        assert(single_dashes(s) == single_dashes(a) + single_dashes(b));
    } else {
        assert(a + c == a);
        assert(b[0] == b.last());
        assert(single_dashes(c) == Seq::<char>::empty());
        assert(single_dashes(b) == seq![b.last()]);
        assert(single_dashes(s) == single_dashes(a) + single_dashes(b));
    }
}

/// The words of a label stay whole and in order, with one dash between them: whatever stands between
/// two wallet-safe texts, as long as it is neither letter nor digit, becomes a single dash.
pub proof fn words_are_joined_by_one_dash(
    first: Seq<char>,
    between: Seq<char>,
    second: Seq<char>,
    node_id: Seq<char>,
)
    requires
        wallet_safe(first),
        wallet_safe(second),
        between.len() > 0,
        forall|i: int| 0 <= i < between.len() ==> !ascii_alphanumeric(#[trigger] between[i]),
    ensures
        alias_for(first + between + second, node_id) == first + seq!['-'] + second,
{
    let label = first + between + second;
    let run = Seq::new(between.len(), |i: int| '-');
    assert(dashed(first) == first);
    assert(dashed(second) == second);
    assert(dashed(between) =~= run) by {
        assert forall|i: int| 0 <= i < between.len() implies dashed(between)[i] == '-' by {
            assert(!ascii_alphanumeric(between[i]));
        }
    }
    assert(dashed(label) == first + run + second) by {
        assert forall|i: int| 0 <= i < label.len() implies dashed(label)[i] == (first + run
            + second)[i] by {
            if i < first.len() {
                assert(dashed(first)[i] == first[i]);
            } else if i < first.len() + between.len() {
                assert(dashed(between)[i - first.len()] == '-');
            } else {
                assert(dashed(second)[i - first.len() - between.len()] == second[i - first.len()
                    - between.len()]);
            }
        }
    }
    lemma_single_dashes_same(first);
    lemma_single_dashes_same(second);
    lemma_single_dashes_run(first, between.len());
    lemma_single_dashes_apart(first + run, second);
    let words = first.push('-') + second;
    assert(single_dashes(dashed(label)) == words);
    assert(words == first + seq!['-'] + second);
    assert(words[0] == first[0] && words.last() == second.last());
    assert(stripped(words, dash()) == words);
}

/// A run of dashes alone shrinks to one dash.
proof fn lemma_single_dashes_alone(n: nat)
    ensures
        single_dashes(Seq::new(n, |i: int| '-')) == (if n == 0 {
            Seq::empty()
        } else {
            seq!['-']
        }),
    decreases n,
{
    let run = Seq::new(n, |i: int| '-');
    if n > 0 {
        assert(run.drop_last() == Seq::new((n - 1) as nat, |i: int| '-'));
        lemma_single_dashes_alone((n - 1) as nat);
        assert(single_dashes(run) == seq!['-']);
    } else {
        assert(run == Seq::<char>::empty());
    }
}

/// What is around the words of a label, neither letter nor digit, is dropped; and a label of nothing
/// else gives a short node id.
pub proof fn what_is_around_the_words_is_dropped(
    front: Seq<char>,
    words: Seq<char>,
    back: Seq<char>,
    node_id: Seq<char>,
)
    requires
        wallet_safe(words),
        forall|i: int| 0 <= i < front.len() ==> !ascii_alphanumeric(#[trigger] front[i]),
        forall|i: int| 0 <= i < back.len() ==> !ascii_alphanumeric(#[trigger] back[i]),
    ensures
        alias_for(front + words + back, node_id) == words,
        alias_for(front, node_id) == short(node_id),
{
    let label = front + words + back;
    let run = Seq::new(front.len(), |i: int| '-');
    let tail = Seq::new(back.len(), |i: int| '-');
    assert(dashed(front) == run) by {
        assert forall|i: int| 0 <= i < front.len() implies dashed(front)[i] == '-' by {
            assert(!ascii_alphanumeric(front[i]));
        }
    }
    assert(dashed(words) == words);
    assert(dashed(label) == run + (words + tail)) by {
        assert forall|i: int| 0 <= i < label.len() implies dashed(label)[i] == (run + (words
            + tail))[i] by {
            if i < front.len() {
                assert(dashed(front)[i] == run[i]);
            } else if i < front.len() + words.len() {
                assert(dashed(words)[i - front.len()] == words[i - front.len()]);
            } else {
                assert(!ascii_alphanumeric(back[i - front.len() - words.len()]));
            }
        }
    }
    lemma_single_dashes_alone(front.len());
    lemma_single_dashes_same(words);
    assert((words + tail)[0] == words[0]);
    lemma_single_dashes_apart(run, words + tail);
    let middle = if back.len() == 0 {
        words
    } else {
        words.push('-')
    };
    if back.len() == 0 {
        assert(words + tail == words);
    } else {
        lemma_single_dashes_run(words, back.len());
    }
    let head = single_dashes(run);
    let all = head + middle;
    assert(single_dashes(dashed(label)) == all);
    let a = head.len() as int;
    let b = a + words.len();
    assert(all[a] == words[0] && all[b - 1] == words.last());
    assert forall|i: int| 0 <= i < a || b <= i < all.len() implies dash()(#[trigger] all[i]) by {}
    lemma_stripped_is(all, dash(), a, b);
    assert(all.subrange(a, b) == words);

    assert forall|i: int| 0 <= i < 0 || 0 <= i < head.len() implies dash()(#[trigger] head[i]) by {}
    lemma_stripped_is(head, dash(), 0, 0);
    assert(head.subrange(0, 0) == Seq::<char>::empty());
}

/// The alias for a label that is trimmed and lowercased already.
pub fn alias_of_lowercase(lower: &str, node_id_hex: &str) -> (r: String)
    ensures
        r@ == alias_for(lower@, node_id_hex@),
{
    let v = chars_of(lower);
    let ghost d = dashed(v@);
    let mut w: Vec<char> = Vec::new();
    let mut i: usize = 0;
    assert(d.take(0) == Seq::<char>::empty());
    while i < v.len()
        invariant
            i <= v@.len(),
            d == dashed(v@),
            w@ == single_dashes(d.take(i as int)),
        decreases v@.len() - i,
    {
        let n: char = v[i];
        let keep = ('0' <= n && n <= '9') || ('A' <= n && n <= 'Z') || ('a' <= n && n <= 'z');
        let c: char = if keep {
            n
        } else {
            '-'
        };
        assert(c == d[i as int]);
        assert(d.take(i + 1).drop_last() == d.take(i as int));
        if !(c == '-' && w.len() > 0 && w[w.len() - 1] == '-') {
            w.push(c);
        }
        i += 1;
    }
    assert(d.take(v@.len() as int) == d);
    let mut from: usize = 0;
    assert(w@.skip(0) == w@);
    while from < w.len() && w[from] == '-'
        invariant
            from <= w@.len(),
            stripped_start(w@, dash()) == stripped_start(w@.skip(from as int), dash()),
        decreases w@.len() - from,
    {
        assert(w@.skip(from as int).skip(1) == w@.skip(from + 1));
        from += 1;
    }
    let mut to: usize = w.len();
    assert(w@.subrange(from as int, to as int) == w@.skip(from as int));
    while to > from && w[to - 1] == '-'
        invariant
            from <= to <= w@.len(),
            stripped_end(w@.skip(from as int), dash()) == stripped_end(
                w@.subrange(from as int, to as int),
                dash(),
            ),
        decreases to,
    {
        assert(w@.subrange(from as int, to as int).drop_last() == w@.subrange(
            from as int,
            to - 1,
        ));
        to -= 1;
    }
    if from == to {
        short_id(node_id_hex)
    } else {
        string_of(&w, from, to)
    }
}

/// A wallet-safe alias for the friendly label of a peer: lowercased, with one dash for whatever is
/// no ASCII letter or digit, or a short node id where the label has neither.
pub fn wallet_alias(label: &str, node_id_hex: &str) -> (r: String)
    ensures
        r@ == alias_for(lowercase(trimmed(label@)), node_id_hex@),
        r@ == alias_for(lowercase(ascii_lowercase(trimmed(label@))), node_id_hex@),
        is_ascii_chars(trimmed(label@)) ==> r@ == alias_for(
            ascii_lowercase(trimmed(label@)),
            node_id_hex@,
        ),
        wallet_safe(r@) || r@ == short(node_id_hex@),
        wallet_safe(label@) ==> r@ == label@,
{
    let t = trim(label);
    let lower = to_lowercase(t.as_str());
    proof {
        aliases_are_wallet_safe(lower@, node_id_hex@);
        if wallet_safe(label@) {
            aliases_are_their_own_alias(label@, node_id_hex@);
        }
    }
    alias_of_lowercase(lower.as_str(), node_id_hex)
}

/// A capability to be stored.
#[derive(Debug)]
pub struct WalletWrite {
    pub alias: String,
    pub node_id: String,
    pub cap: String,
}

/// What an answer leads to.
#[derive(Debug)]
pub struct Conclusion {
    /// What to tell the user.
    pub outcome: PairOutcome,
    /// What to store first, where something is granted.
    pub store: Option<WalletWrite>,
}

/// The outcome for an answer whose capability is kept under `alias`.
pub open spec fn outcome_of(resp: PairResponseView, alias: Seq<char>) -> PairOutcomeView {
    match resp {
        PairResponseView::Accepted { token, granted, not_after, issuer, issuer_label, rooted } => {
            PairOutcomeView {
                accepted: true,
                alias: Some(alias),
                issuer: Some(issuer),
                granted,
                not_after,
                rooted,
                reason: None,
            }
        },
        PairResponseView::Denied { reason } => PairOutcomeView {
            accepted: false,
            alias: None,
            issuer: None,
            granted: Seq::empty(),
            not_after: 0,
            rooted: false,
            reason: Some(reason),
        },
    }
}

/// What is stored for an answer: alias, node and capability.
pub open spec fn stored_for(resp: PairResponseView, alias: Seq<char>) -> Option<
    (Seq<char>, Seq<char>, Seq<char>),
> {
    match resp {
        PairResponseView::Accepted { token, granted, not_after, issuer, issuer_label, rooted } => {
            Some((alias, issuer, token))
        },
        PairResponseView::Denied { reason } => None,
    }
}

/// What a [`WalletWrite`] says, where there is one.
pub open spec fn write_view(w: Option<WalletWrite>) -> Option<(Seq<char>, Seq<char>, Seq<char>)> {
    match w {
        Some(w) => Some((w.alias@, w.node_id@, w.cap@)),
        None => None,
    }
}

/// What an answer leads to, where `alias` is the alias for its issuer.
pub fn conclude_as(resp: PairResponse, alias: String) -> (r: Conclusion)
    ensures
        r.outcome@ == outcome_of(resp@, alias@),
        write_view(r.store) == stored_for(resp@, alias@),
        resp matches PairResponse::Accepted {
            token,
            granted,
            not_after,
            issuer,
            issuer_label,
            rooted,
        } ==> {
            &&& r.outcome.accepted
            &&& r.outcome.alias matches Some(a) && a@ == alias@
            &&& r.outcome.issuer matches Some(i) && i@ == issuer@
            &&& r.outcome.granted@ == granted@
            &&& r.outcome.not_after == not_after
            &&& r.outcome.rooted == rooted
            &&& r.outcome.reason is None
            &&& r.store matches Some(w) && w.alias@ == alias@ && w.node_id@ == issuer@ && w.cap@
                == token@
        },
        resp matches PairResponse::Denied { reason } ==> {
            &&& !r.outcome.accepted
            &&& r.outcome.alias is None
            &&& r.outcome.issuer is None
            &&& r.outcome.granted@.len() == 0
            &&& r.outcome.not_after == 0
            &&& !r.outcome.rooted
            &&& r.outcome.reason matches Some(t) && t@ == reason@
            &&& r.store is None
        },
{
    match resp {
        PairResponse::Accepted { token, granted, not_after, issuer, issuer_label, rooted } => {
            let write = WalletWrite { alias: alias.clone(), node_id: issuer.clone(), cap: token };
            let outcome = PairOutcome {
                accepted: true,
                alias: Some(alias),
                issuer: Some(issuer),
                granted,
                not_after,
                rooted,
                reason: None,
            };
            Conclusion { outcome, store: Some(write) }
        },
        PairResponse::Denied { reason } => {
            let outcome = PairOutcome {
                accepted: false,
                alias: None,
                issuer: None,
                granted: Vec::new(),
                not_after: 0,
                rooted: false,
                reason: Some(reason),
            };
            assert(texts(Seq::<String>::empty()) == Seq::<Seq<char>>::empty());
            Conclusion { outcome, store: None }
        },
    }
}

/// What an answer leads to: a denial is reported; a capability is stored against its issuer under
/// an alias made of the issuer's label, and reported.
pub fn conclude(resp: PairResponse) -> (r: Conclusion)
    ensures
        match resp@ {
            PairResponseView::Accepted {
                token,
                granted,
                not_after,
                issuer,
                issuer_label,
                rooted,
            } => {
                let alias = alias_for(lowercase(trimmed(issuer_label)), issuer);
                &&& r.outcome@ == outcome_of(resp@, alias)
                &&& write_view(r.store) == stored_for(resp@, alias)
                &&& wallet_safe(alias) || alias == short(issuer)
                &&& is_ascii_chars(trimmed(issuer_label)) ==> alias == alias_for(
                    ascii_lowercase(trimmed(issuer_label)),
                    issuer,
                )
            },
            PairResponseView::Denied { reason } => {
                &&& r.outcome@ == outcome_of(resp@, Seq::empty())
                &&& r.store is None
            },
        },
        resp matches PairResponse::Accepted {
            token,
            granted,
            not_after,
            issuer,
            issuer_label,
            rooted,
        } ==> {
            &&& r.outcome.accepted
            &&& r.outcome.alias matches Some(a) && a@ == alias_for(lowercase(trimmed(issuer_label@)), issuer@)
            &&& r.outcome.issuer matches Some(i) && i@ == issuer@
            &&& r.outcome.granted@ == granted@
            &&& r.outcome.not_after == not_after
            &&& r.outcome.rooted == rooted
            &&& r.outcome.reason is None
            &&& r.store matches Some(w) && w.alias@ == alias_for(lowercase(trimmed(issuer_label@)), issuer@) && w.node_id@ == issuer@ && w.cap@
                == token@
        },
        resp matches PairResponse::Denied { reason } ==> {
            &&& !r.outcome.accepted
            &&& r.outcome.alias is None
            &&& r.outcome.issuer is None
            &&& r.outcome.granted@.len() == 0
            &&& r.outcome.not_after == 0
            &&& !r.outcome.rooted
            &&& r.outcome.reason matches Some(t) && t@ == reason@
            &&& r.store is None
        },
{
    let alias = match &resp {
        PairResponse::Accepted { token, granted, not_after, issuer, issuer_label, rooted } => {
            wallet_alias(issuer_label.as_str(), issuer.as_str())
        },
        PairResponse::Denied { reason } => String::new(),
    };
    conclude_as(resp, alias)
}

/// When a capability ends, in words.
pub open spec fn expiry_text(not_after: u64) -> Seq<char> {
    if not_after == 0 {
        "never"@
    } else {
        "unix "@ + digits(not_after as nat)
    }
}

/// The text where there is one, else `fallback`.
pub open spec fn text_or(t: Option<Seq<char>>, fallback: Seq<char>) -> Seq<char> {
    match t {
        Some(t) => t,
        None => fallback,
    }
}

/// The lines that tell the user of an outcome.
pub open spec fn report_lines(o: PairOutcomeView) -> Seq<Seq<char>> {
    if o.accepted {
        let three = seq![
            "Paired. Capability stored in wallet as '"@ + text_or(o.alias, Seq::empty()) + "'."@,
            "  abilities: "@ + joined(o.granted, ", "@),
            "  expires:   "@ + expiry_text(o.not_after),
        ];
        if o.rooted {
            three.push("  also added to the peer's roots (effective after its ce restart)."@)
        } else {
            three
        }
    } else {
        seq!["Not paired: "@ + text_or(o.reason, "declined"@)]
    }
}

/// The lines that tell the user of an outcome.
pub fn report(o: &PairOutcome) -> (r: Vec<String>)
    ensures
        texts(r@) == report_lines(o@),
        o.accepted ==> {
            &&& r@.len() == (if o.rooted {
                4int
            } else {
                3int
            })
            &&& o.alias matches Some(a) ==> r@[0]@ == "Paired. Capability stored in wallet as '"@
                + a@ + "'."@
            &&& o.alias is None ==> r@[0]@ == "Paired. Capability stored in wallet as '"@ + "'."@
            &&& r@[1]@ == "  abilities: "@ + joined(texts(o.granted@), ", "@)
            &&& o.not_after == 0 ==> r@[2]@ == "  expires:   "@ + "never"@
            &&& o.not_after > 0 ==> r@[2]@ == "  expires:   "@ + ("unix "@ + digits(
                o.not_after as nat,
            ))
            &&& o.rooted ==> r@[3]@
                == "  also added to the peer's roots (effective after its ce restart)."@
        },
        !o.accepted ==> {
            &&& r@.len() == 1
            &&& o.reason matches Some(t) ==> r@[0]@ == "Not paired: "@ + t@
            &&& o.reason is None ==> r@[0]@ == "Not paired: "@ + "declined"@
        },
{
    let mut r: Vec<String> = Vec::new();
    if o.accepted {
        let mut first = "Paired. Capability stored in wallet as '".to_owned();
        if let Some(a) = &o.alias {
            first.append(a.as_str());
        }
        first.append("'.");
        let mut second = "  abilities: ".to_owned();
        second.append(join(&o.granted, ", ").as_str());
        let mut third = "  expires:   ".to_owned();
        if o.not_after == 0 {
            third.append("never");
        } else {
            third.append("unix ");
            push_decimal(&mut third, o.not_after);
        }
        assert(third@ == "  expires:   "@ + expiry_text(o.not_after));
        r.push(first);
        r.push(second);
        r.push(third);
        if o.rooted {
            r.push("  also added to the peer's roots (effective after its ce restart).".to_owned());
        }
    } else {
        let mut line = "Not paired: ".to_owned();
        match &o.reason {
            Some(t) => line.append(t.as_str()),
            None => line.append("declined"),
        }
        r.push(line);
    }
    assert(texts(r@) == report_lines(o@));
    assert(texts(r@).len() == r@.len());
    assert forall|i: int| 0 <= i < r@.len() implies (#[trigger] r@[i])@ == report_lines(o@)[i] by {
        assert(texts(r@)[i] == r@[i]@);
    }
    r
}

/// What the asking device is left with says what it was answered: whatever it concludes from an
/// acceptance tells of the token's issuer, the abilities, the end and the roots as they were
/// granted, and stores the whole token against the issuer under the alias that it tells of.
pub proof fn conclusions_say_what_was_answered(resp: PairResponse, c: Conclusion)
    requires
        call_ensures(conclude, (resp,), c),
    ensures
        c.outcome.accepted <==> resp is Accepted,
        c.store is Some <==> resp is Accepted,
        resp matches PairResponse::Accepted {
            token,
            granted,
            not_after,
            issuer,
            issuer_label,
            rooted,
        } ==> {
            &&& c.outcome.granted@ == granted@
            &&& c.outcome.not_after == not_after
            &&& c.outcome.rooted == rooted
            &&& c.outcome.issuer is Some && c.outcome.issuer->0@ == issuer@
            &&& c.store->0.node_id@ == issuer@
            &&& c.store->0.cap@ == token@
            &&& c.outcome.alias is Some && c.outcome.alias->0@ == c.store->0.alias@
        },
        resp matches PairResponse::Denied { reason } ==> c.outcome.reason is Some
            && c.outcome.reason->0@ == reason@,
{
}

} // verus!
