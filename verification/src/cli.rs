//! The command line: reading lifetimes and targets, and the text that the commands print.
use vstd::prelude::*;
use vstd::string::*;
use vstd::utf8::*;

use crate::rollup::{AtlasEntry, AtlasEntryView};
use crate::text::{
    ascii_hex_digit, ascii_lowercase, chars_of, copy_texts, decimal, decimal_round_trip,
    digits, digits_write_their_number, is_digit, join, joined, left_aligned,
    lowercase, parse_u64, parsed_u64, push_decimal, push_left_aligned, push_right_aligned,
    right_aligned, same_text, texts, to_lowercase, trim, trimmed,
};
use crate::util::{full_hex_id, node_id, node_ids_are_64_hex_digits};

verus! {

/// Why a lifetime cannot be read. Each holds the text, trimmed and lowercased.
#[derive(Debug)]
pub enum TtlError {
    /// It ends with no unit and no digit.
    BadUnit { text: String },
    /// What stands before the unit is no number.
    BadNumber { text: String },
    /// Its seconds do not fit 64 bits.
    TooLong { text: String },
}

/// What a [`TtlError`] says.
pub open spec fn ttl_error_text(e: TtlError) -> Seq<char> {
    match e {
        TtlError::BadUnit { text } => "bad ttl '"@ + text@
            + "' (use 90d/24h/30m/3600s or never)"@,
        TtlError::BadNumber { text } => "bad ttl number in '"@ + text@ + "'"@,
        TtlError::TooLong { text } => "ttl too long in '"@ + text@ + "'"@,
    }
}

impl TtlError {
    /// The error in words.
    pub fn message(&self) -> (r: String)
        ensures
            r@ == ttl_error_text(*self),
            *self matches TtlError::BadUnit { text } ==> r@ == "bad ttl '"@ + text@
                + "' (use 90d/24h/30m/3600s or never)"@,
            *self matches TtlError::BadNumber { text } ==> r@ == "bad ttl number in '"@ + text@
                + "'"@,
            *self matches TtlError::TooLong { text } ==> r@ == "ttl too long in '"@ + text@ + "'"@,
    {
        match self {
            TtlError::BadUnit { text } => {
                let mut r = "bad ttl '".to_owned();
                r.append(text.as_str());
                r.append("' (use 90d/24h/30m/3600s or never)");
                r
            },
            TtlError::BadNumber { text } => {
                let mut r = "bad ttl number in '".to_owned();
                r.append(text.as_str());
                r.append("'");
                r
            },
            TtlError::TooLong { text } => {
                let mut r = "ttl too long in '".to_owned();
                r.append(text.as_str());
                r.append("'");
                r
            },
        }
    }
}

/// What a text says as a lifetime.
pub ghost enum TtlReading {
    /// So many seconds; none means for ever.
    Secs(int),
    /// It ends with no unit and no digit.
    BadUnit,
    /// What stands before the unit is no number.
    BadNumber,
}

/// The seconds in a unit.
pub open spec fn unit_secs(c: char) -> Option<int> {
    if c == 'd' {
        Some(86_400)
    } else if c == 'h' {
        Some(3_600)
    } else if c == 'm' {
        Some(60)
    } else if c == 's' {
        Some(1)
    } else {
        None
    }
}

/// So many times `mult` seconds as `num` writes.
pub open spec fn scaled(num: Seq<char>, mult: int) -> TtlReading {
    match parsed_u64(num) {
        Some(n) => TtlReading::Secs(n * mult),
        None => TtlReading::BadNumber,
    }
}

/// What a trimmed and lowercased text says as a lifetime: `never`, `0` or nothing is for ever;
/// else a number of days, hours, minutes or seconds.
pub open spec fn ttl_reading(s: Seq<char>) -> TtlReading {
    if s.len() == 0 || s == "never"@ || s == "0"@ {
        TtlReading::Secs(0)
    } else {
        match unit_secs(s.last()) {
            Some(mult) => scaled(s.drop_last(), mult),
            None => if is_digit(s.last()) {
                scaled(s, 1)
            } else {
                TtlReading::BadUnit
            },
        }
    }
}

/// Whether `r` is what reading the lifetime `s` gives.
pub open spec fn ttl_result(s: Seq<char>, r: Result<u64, TtlError>) -> bool {
    match ttl_reading(s) {
        TtlReading::Secs(n) => if n <= u64::MAX {
            r is Ok && r->Ok_0 == n
        } else {
            r matches Err(TtlError::TooLong { text }) && text@ == s
        },
        TtlReading::BadUnit => r matches Err(TtlError::BadUnit { text }) && text@ == s,
        TtlReading::BadNumber => r matches Err(TtlError::BadNumber { text }) && text@ == s,
    }
}

/// Reads a trimmed and lowercased lifetime.
pub fn ttl_of_lowercase(s: &str) -> (r: Result<u64, TtlError>)
    ensures
        ttl_result(s@, r),
        s@.len() == 0 || s@ == "never"@ || s@ == "0"@ ==> r == Ok::<u64, TtlError>(0),
        s@.len() > 0 && s@ != "never"@ && s@ != "0"@ ==> {
            let last = s@.last();
            let unit = last == 'd' || last == 'h' || last == 'm' || last == 's';
            let num = if unit {
                s@.drop_last()
            } else {
                s@
            };
            let mult: int = if last == 'd' {
                86_400
            } else if last == 'h' {
                3_600
            } else if last == 'm' {
                60
            } else {
                1
            };
            &&& !unit && !('0' <= last <= '9') ==> (r matches Err(TtlError::BadUnit { text })
                && text@ == s@)
            &&& (unit || '0' <= last <= '9') && parsed_u64(num) is None ==> (r matches Err(
                TtlError::BadNumber { text },
            ) && text@ == s@)
            &&& (unit || '0' <= last <= '9') && parsed_u64(num) is Some && parsed_u64(num)->0 * mult
                <= u64::MAX ==> (r matches Ok(secs) && secs == parsed_u64(num)->0 * mult)
            &&& (unit || '0' <= last <= '9') && parsed_u64(num) is Some && parsed_u64(num)->0 * mult
                > u64::MAX ==> (r matches Err(TtlError::TooLong { text }) && text@ == s@)
        },
{
    if s.is_empty() || same_text(s, "never") || same_text(s, "0") {
        return Ok(0);
    }
    let v = chars_of(s);
    let n: usize = v.len();
    let last: char = v[n - 1];
    assert(v@.subrange(0, n - 1) == v@.drop_last());
    assert(v@.subrange(0, n as int) == v@);
    let mut end: usize = n - 1;
    let mut mult: u64 = 1;
    if last == 'd' {
        mult = 86_400;
    } else if last == 'h' {
        mult = 3_600;
    } else if last == 'm' {
        mult = 60;
    } else if last == 's' {
        mult = 1;
    } else if '0' <= last && last <= '9' {
        end = n;
    } else {
        return Err(TtlError::BadUnit { text: s.to_owned() });
    }
    match parse_u64(&v, 0, end) {
        Some(k) => match k.checked_mul(mult) {
            Some(secs) => Ok(secs),
            None => Err(TtlError::TooLong { text: s.to_owned() }),
        },
        None => Err(TtlError::BadNumber { text: s.to_owned() }),
    }
}

/// Reads a lifetime like `90d`, `24h`, `30m`, `3600s`, or `never` or `0`, in seconds, where `0`
/// means for ever. White space around it and the case of its letters do not matter. A lifetime
/// whose seconds do not fit 64 bits is an error.
pub fn parse_ttl(s: &str) -> (r: Result<u64, TtlError>)
    ensures
        ttl_result(lowercase(trimmed(s@)), r),
        ttl_result(lowercase(ascii_lowercase(trimmed(s@))), r),
        is_ascii_chars(trimmed(s@)) ==> ttl_result(ascii_lowercase(trimmed(s@)), r),
{
    ttl_of_lowercase(to_lowercase(trim(s).as_str()).as_str())
}

/// Two lifetimes that differ in the case of their ASCII letters and in the white space around them
/// only are read alike.
pub proof fn lifetimes_ignore_case_and_white_space(
    a: &str,
    b: &str,
    of_a: Result<u64, TtlError>,
    of_b: Result<u64, TtlError>,
)
    requires
        call_ensures(parse_ttl, (a,), of_a),
        call_ensures(parse_ttl, (b,), of_b),
        ascii_lowercase(trimmed(a@)) == ascii_lowercase(trimmed(b@)),
    ensures
        of_a is Ok <==> of_b is Ok,
        of_a is Ok ==> of_a->Ok_0 == of_b->Ok_0,
{
}

/// A number and a unit are read as that many units.
pub proof fn ttl_counts_units(n: u64, unit: char)
    requires
        unit_secs(unit) is Some,
    ensures
        ttl_reading(digits(n as nat).push(unit)) == TtlReading::Secs(n * unit_secs(unit)->0),
{
    let s = digits(n as nat).push(unit);
    reveal_strlit("never");
    reveal_strlit("0");
    digits_write_their_number(n as nat);
    decimal_round_trip(n);
    assert(s.drop_last() == digits(n as nat));
    assert("never"@.last() == 'r');
}

/// Days, hours, minutes and seconds are counted as such; a lifetime of none of anything, and
/// `never`, is for ever.
pub proof fn ttl_units_are_days_hours_minutes_seconds(n: u64)
    ensures
        ttl_reading(digits(n as nat).push('d')) == TtlReading::Secs(n * (24 * 60 * 60)),
        ttl_reading(digits(n as nat).push('h')) == TtlReading::Secs(n * (60 * 60)),
        ttl_reading(digits(n as nat).push('m')) == TtlReading::Secs(n * 60),
        ttl_reading(digits(n as nat).push('s')) == TtlReading::Secs(n as int),
        ttl_reading("never"@) == TtlReading::Secs(0),
        ttl_reading(Seq::empty()) == TtlReading::Secs(0),
{
    ttl_counts_units(n, 'd');
    ttl_counts_units(n, 'h');
    ttl_counts_units(n, 'm');
    ttl_counts_units(n, 's');
    assert(n * unit_secs('s')->0 == n) by {
        assert(unit_secs('s')->0 == 1);
    }
}

/// A lifetime with another unit is refused for its unit, and one whose unit follows no number is
/// refused for its number.
pub proof fn odd_lifetimes_are_refused(s: Seq<char>, last: char)
    requires
        s.push(last) != "never"@,
        s.push(last) != "0"@,
    ensures
        ttl_reading(s.push(last)) == TtlReading::BadUnit <==> !('0' <= last <= '9') && last != 'd'
            && last != 'h' && last != 'm' && last != 's',
        (last == 'd' || last == 'h' || last == 'm' || last == 's') && parsed_u64(s) is None ==> (
        ttl_reading(s.push(last)) == TtlReading::BadNumber),
{
    assert(s.push(last).drop_last() == s);
}

/// A number alone is read as seconds.
pub proof fn ttl_counts_seconds(n: u64)
    ensures
        ttl_reading(digits(n as nat)) == TtlReading::Secs(n as int),
{
    let s = digits(n as nat);
    reveal_strlit("never");
    reveal_strlit("0");
    digits_write_their_number(n as nat);
    decimal_round_trip(n);
    assert(is_digit(s[s.len() - 1]));
    assert("never"@[0] == 'n');
    assert(is_digit(s[0]));
    if s == "0"@ {
        assert(s.drop_last() == Seq::<char>::empty());
        assert(crate::text::digits_value(s.drop_last()) == 0);
    }
}

/// What the target of a pairing is.
#[derive(Debug)]
pub enum Target {
    /// A node id, in small letters.
    Id(String),
    /// A name, still to be looked up.
    Name(String),
}

/// Reads the target of a pairing: 64 hex digits are a node id, anything else is a name.
pub fn read_target(target: &str) -> (r: Target)
    ensures
        if full_hex_id(trimmed(target@)) {
            r matches Target::Id(id) && id@ == ascii_lowercase(trimmed(target@))
        } else {
            r matches Target::Name(name) && name@ == trimmed(target@)
        },
        r is Id <==> trimmed(target@).len() == 64 && forall|i: int|
            0 <= i < trimmed(target@).len() ==> {
                let c = #[trigger] trimmed(target@)[i];
                '0' <= c <= '9' || 'a' <= c <= 'f' || 'A' <= c <= 'F'
            },
        r matches Target::Id(id) ==> {
            &&& id@.len() == 64
            &&& forall|i: int|
                0 <= i < 64 ==> {
                    let c = trimmed(target@)[i];
                    &&& !('A' <= c <= 'Z') ==> #[trigger] id@[i] == c
                    &&& 'A' <= c <= 'Z' ==> id@[i] as int == c as int + 32
                }
            &&& node_id(id@) == node_id(target@)
        },
        r matches Target::Name(name) ==> name@ == trimmed(target@),
{
    let t = trim(target);
    let v = chars_of(t.as_str());
    if v.len() != 64 {
        return Target::Name(t);
    }
    let mut i: usize = 0;
    while i < v.len()
        invariant
            i <= v@.len(),
            v@ == t@,
            t@ == trimmed(target@),
            forall|j: int| 0 <= j < i ==> ascii_hex_digit(#[trigger] v@[j]),
        decreases v@.len() - i,
    {
        let c: char = v[i];
        if !(('0' <= c && c <= '9') || ('a' <= c && c <= 'f') || ('A' <= c && c <= 'F')) {
            assert(!ascii_hex_digit(t@[i as int]));
            return Target::Name(t);
        }
        i += 1;
    }
    assert(is_ascii_chars(t@)) by {
        assert forall|j: int| 0 <= j < t@.len() implies '\0' <= #[trigger] t@[j] <= '\u{7f}' by {
            assert(ascii_hex_digit(v@[j]));
        }
    }
    proof {
        target_ids_are_node_ids(target@);
        assert forall|j: int| 0 <= j < 64 implies ascii_hex_digit(#[trigger] t@[j]) by {
            assert(ascii_hex_digit(v@[j]));
        }
    }
    Target::Id(to_lowercase(t.as_str()))
}

/// A target read as a node id is one: it parses, to the same bytes as the text that was given.
pub proof fn target_ids_are_node_ids(target: Seq<char>)
    requires
        full_hex_id(trimmed(target)),
    ensures
        node_id(ascii_lowercase(trimmed(target))) is Ok,
        node_id(ascii_lowercase(trimmed(target))) == node_id(target),
{
    crate::util::node_id_ignores_white_space(target);
    crate::util::node_id_ignores_case(trimmed(target));
    node_ids_are_64_hex_digits(target);
}

/// A target that is neither a node id nor a name that anyone claimed.
#[derive(Debug)]
pub struct UnknownTarget {
    pub name: String,
}

/// What an [`UnknownTarget`] says.
pub open spec fn unknown_target_text(name: Seq<char>) -> Seq<char> {
    "'"@ + name + "' is neither a 64-hex node id nor a claimed name"@
}

impl UnknownTarget {
    /// The error in words.
    pub fn message(&self) -> (r: String)
        ensures
            r@ == unknown_target_text(self.name@),
            r@ == "'"@ + self.name@ + "' is neither a 64-hex node id nor a claimed name"@,
    {
        let mut r = "'".to_owned();
        r.append(self.name.as_str());
        r.append("' is neither a 64-hex node id nor a claimed name");
        r
    }
}

/// The node behind a name, where the lookup found one.
pub fn resolved_target(name: &str, found: Option<String>) -> (r: Result<String, UnknownTarget>)
    ensures
        match found {
            Some(node) => r == Ok::<String, UnknownTarget>(node),
            None => r matches Err(e) && e.name@ == name@,
        },
{
    match found {
        Some(node) => Ok(node),
        None => Err(UnknownTarget { name: name.to_owned() }),
    }
}

/// One node as the listing gives it.
#[derive(Debug)]
pub struct NodeListing {
    pub node_id: String,
    pub is_self: bool,
    pub cpu_cores: u32,
    pub mem_mb: u32,
    pub running_jobs: u32,
    pub last_seen_secs: u64,
    pub tags: Vec<String>,
}

/// Whether `l` gives the node `e`, as seen from the node `me`.
pub open spec fn listing_of(l: NodeListing, e: AtlasEntryView, me: Seq<char>) -> bool {
    &&& l.node_id@ == e.node_id
    &&& l.is_self == (e.node_id == me)
    &&& l.cpu_cores == e.cpu_cores
    &&& l.mem_mb == e.mem_mb
    &&& l.running_jobs == e.running_jobs
    &&& l.last_seen_secs == e.last_seen_secs
    &&& texts(l.tags@) == e.tags
}

/// The nodes of the atlas in its order, each with whether it is the node `me`.
pub fn list_nodes(atlas: &Vec<AtlasEntry>, me: &str) -> (r: Vec<NodeListing>)
    ensures
        r@.len() == atlas@.len(),
        forall|i: int| 0 <= i < r@.len() ==> listing_of(#[trigger] r@[i], atlas@[i]@, me@),
        forall|i: int|
            #![trigger r@[i]]
            0 <= i < atlas@.len() ==> {
                &&& r@[i].node_id@ == atlas@[i].node_id@
                &&& r@[i].is_self == (atlas@[i].node_id@ == me@)
                &&& r@[i].cpu_cores == atlas@[i].cpu_cores
                &&& r@[i].mem_mb == atlas@[i].mem_mb
                &&& r@[i].running_jobs == atlas@[i].running_jobs
                &&& r@[i].last_seen_secs == atlas@[i].last_seen_secs
                &&& r@[i].tags@ == atlas@[i].tags@
            },
{
    let mut r: Vec<NodeListing> = Vec::new();
    let mut i: usize = 0;
    while i < atlas.len()
        invariant
            i <= atlas@.len(),
            r@.len() == i,
            forall|j: int| 0 <= j < i ==> listing_of(#[trigger] r@[j], atlas@[j]@, me@),
            forall|j: int|
                #![trigger r@[j]]
                0 <= j < i ==> {
                    &&& r@[j].node_id@ == atlas@[j].node_id@
                    &&& r@[j].is_self == (atlas@[j].node_id@ == me@)
                    &&& r@[j].cpu_cores == atlas@[j].cpu_cores
                    &&& r@[j].mem_mb == atlas@[j].mem_mb
                    &&& r@[j].running_jobs == atlas@[j].running_jobs
                    &&& r@[j].last_seen_secs == atlas@[j].last_seen_secs
                    &&& r@[j].tags@ == atlas@[j].tags@
                },
        decreases atlas@.len() - i,
    {
        let e = &atlas[i];
        r.push(
            NodeListing {
                node_id: e.node_id.clone(),
                is_self: same_text(e.node_id.as_str(), me),
                cpu_cores: e.cpu_cores,
                mem_mb: e.mem_mb,
                running_jobs: e.running_jobs,
                last_seen_secs: e.last_seen_secs,
                tags: copy_texts(&e.tags),
            },
        );
        i += 1;
    }
    r
}

/// A listing gives every node of the atlas as the mesh does, in its order: the node's whole id, so
/// that it names the same node, its cores, memory, jobs and tags, and whether it is this one.
pub proof fn listings_give_the_nodes_as_the_mesh_does(
    atlas: Vec<AtlasEntry>,
    me: &str,
    listed: Vec<NodeListing>,
    i: int,
)
    requires
        call_ensures(list_nodes, (&atlas, me), listed),
        0 <= i < atlas@.len(),
    ensures
        listed@.len() == atlas@.len(),
        listed@[i].node_id@ == atlas@[i].node_id@,
        node_id(listed@[i].node_id@) == node_id(atlas@[i].node_id@),
        listed@[i].is_self <==> atlas@[i].node_id@ == me@,
        listed@[i].cpu_cores == atlas@[i].cpu_cores,
        listed@[i].mem_mb == atlas@[i].mem_mb,
        listed@[i].running_jobs == atlas@[i].running_jobs,
        listed@[i].last_seen_secs == atlas@[i].last_seen_secs,
        listed@[i].tags@ == atlas@[i].tags@,
{
}

/// A listing and its node agree as plain values too.
pub proof fn a_listing_is_its_node(l: NodeListing, e: AtlasEntryView, me: Seq<char>)
    requires
        listing_of(l, e, me),
    ensures
        l.node_id@ == e.node_id,
        l.is_self <==> e.node_id == me,
        l.cpu_cores == e.cpu_cores,
        l.mem_mb == e.mem_mb,
        l.running_jobs == e.running_jobs,
        l.last_seen_secs == e.last_seen_secs,
        texts(l.tags@) == e.tags,
{
}

/// Whether a node last seen at `last_seen` counts as online at `now`: less than two minutes ago.
pub open spec fn online(now: u64, last_seen: u64) -> bool {
    now - last_seen < 120
}

/// What the table says behind a node.
pub open spec fn node_mark(e: AtlasEntryView, me: Seq<char>, now: u64) -> Seq<char> {
    if e.node_id == me {
        " (this machine)"@
    } else if online(now, e.last_seen_secs) {
        ""@
    } else {
        " (offline)"@
    }
}

/// The line of the table for a node.
pub open spec fn node_row(e: AtlasEntryView, me: Seq<char>, now: u64) -> Seq<char> {
    left_aligned(e.node_id, 66) + "  "@ + right_aligned(digits(e.cpu_cores as nat), 5) + "  "@
        + right_aligned(digits((e.mem_mb / 1024) as nat), 5) + "G  "@ + joined(e.tags, ","@)
        + node_mark(e, me, now)
}

/// The head of the table.
pub open spec fn table_head() -> Seq<char> {
    left_aligned("NODE"@, 66) + "  "@ + right_aligned("CPU"@, 5) + "  "@ + right_aligned("MEM"@, 6)
        + "  TAGS"@
}

/// The lines that list the nodes.
pub open spec fn table_lines(atlas: Seq<AtlasEntry>, me: Seq<char>, now: u64) -> Seq<Seq<char>> {
    if atlas.len() == 0 {
        seq!["No nodes seen yet. Make sure `ce start` is running."@]
    } else {
        seq![table_head()] + Seq::new(atlas.len(), |i: int| node_row(atlas[i]@, me, now))
    }
}

/// The line of the table for a node.
fn node_line(e: &AtlasEntry, me: &str, now: u64) -> (r: String)
    ensures
        r@ == node_row(e@, me@, now),
{
    let mut r = String::new();
    push_left_aligned(&mut r, e.node_id.as_str(), 66);
    r.append("  ");
    push_right_aligned(&mut r, decimal(e.cpu_cores as u64).as_str(), 5);
    r.append("  ");
    push_right_aligned(&mut r, decimal((e.mem_mb / 1024) as u64).as_str(), 5);
    r.append("G  ");
    r.append(join(&e.tags, ",").as_str());
    let age: u64 = if e.last_seen_secs <= now {
        now - e.last_seen_secs
    } else {
        0
    };
    let mark = if same_text(e.node_id.as_str(), me) {
        " (this machine)"
    } else if age < 120 {
        ""
    } else {
        " (offline)"
    };
    r.append(mark);
    r
}

/// The lines that list the nodes of the atlas, as seen from the node `me` at `now`.
pub fn node_table(atlas: &Vec<AtlasEntry>, me: &str, now: u64) -> (r: Vec<String>)
    ensures
        texts(r@) == table_lines(atlas@, me@, now),
        atlas@.len() == 0 ==> r@.len() == 1 && r@[0]@
            == "No nodes seen yet. Make sure `ce start` is running."@,
        atlas@.len() > 0 ==> {
            &&& r@.len() == atlas@.len() + 1
            &&& r@[0]@ == left_aligned("NODE"@, 66) + "  "@ + right_aligned("CPU"@, 5) + "  "@
                + right_aligned("MEM"@, 6) + "  TAGS"@
            &&& forall|i: int|
                #![trigger atlas@[i]]
                0 <= i < atlas@.len() ==> r@[i + 1]@ == left_aligned(atlas@[i].node_id@, 66) + "  "@ + right_aligned(
                    digits(atlas@[i].cpu_cores as nat),
                    5,
                ) + "  "@ + right_aligned(digits((atlas@[i].mem_mb / 1024) as nat), 5) + "G  "@
                    + joined(texts(atlas@[i].tags@), ","@) + (if atlas@[i].node_id@ == me@ {
                    " (this machine)"@
                } else if now - atlas@[i].last_seen_secs < 120 {
                    ""@
                } else {
                    " (offline)"@
                })
        },
{
    let mut r: Vec<String> = Vec::new();
    if atlas.len() == 0 {
        r.push("No nodes seen yet. Make sure `ce start` is running.".to_owned());
        assert(texts(r@) == table_lines(atlas@, me@, now));
        assert(texts(r@)[0] == r@[0]@);
        return r;
    }
    let mut head = String::new();
    push_left_aligned(&mut head, "NODE", 66);
    head.append("  ");
    push_right_aligned(&mut head, "CPU", 5);
    head.append("  ");
    push_right_aligned(&mut head, "MEM", 6);
    head.append("  TAGS");
    r.push(head);
    let ghost all = table_lines(atlas@, me@, now);
    let mut i: usize = 0;
    assert(texts(r@) == all.take(1));
    while i < atlas.len()
        invariant
            i <= atlas@.len(),
            atlas@.len() > 0,
            all == table_lines(atlas@, me@, now),
            texts(r@) == all.take(i + 1),
        decreases atlas@.len() - i,
    {
        let ghost was = texts(r@);
        let line = node_line(&atlas[i], me, now);
        r.push(line);
        assert(texts(r@) == was.push(line@));
        assert(all[i + 1] == line@);
        assert(all.take(i + 2) == all.take(i + 1).push(all[i + 1]));
        i += 1;
    }
    assert(all.take(atlas@.len() as int + 1) == all);
    proof {
        assert(texts(r@).len() == r@.len());
        assert(r@[0]@ == texts(r@)[0]);
        assert forall|i: int| #![trigger atlas@[i]] 0 <= i < atlas@.len() implies r@[i + 1]@
            == node_row(atlas@[i]@, me@, now) by {
            assert(texts(r@)[i + 1] == r@[i + 1]@);
            assert(all[i + 1] == node_row(atlas@[i]@, me@, now));
        }
    }
    r
}

/// A pending request as the daemon's answer gives it, each part where it has the expected form.
#[derive(Debug)]
pub struct PendingRow {
    /// The id, as written in the answer.
    pub id: String,
    pub label: Option<String>,
    pub from_node: Option<String>,
    /// The items of the list of abilities, each where it is text.
    pub abilities: Option<Vec<Option<String>>>,
}

/// The items that are text, in order.
pub open spec fn text_items(v: Seq<Option<String>>) -> Seq<Seq<char>>
    decreases v.len(),
{
    if v.len() == 0 {
        Seq::empty()
    } else {
        match v.last() {
            Some(s) => text_items(v.drop_last()).push(s@),
            None => text_items(v.drop_last()),
        }
    }
}

/// What is text comes through, in order; what is not is passed over.
pub proof fn only_text_comes_through(v: Seq<Option<String>>, s: String)
    ensures
        text_items(Seq::empty()) == Seq::<Seq<char>>::empty(),
        text_items(v.push(Some(s))) == text_items(v).push(s@),
        text_items(v.push(None)) == text_items(v),
{
    assert(v.push(Some(s)).drop_last() == v);
    assert(v.push(None).drop_last() == v);
}

/// The text, or a question mark where there is none.
pub open spec fn text_or_mark(t: Option<String>) -> Seq<char> {
    match t {
        Some(t) => t@,
        None => "?"@,
    }
}

/// What is printed for a pending request.
pub open spec fn pending_text(p: PendingRow) -> Seq<char> {
    let abilities = match p.abilities {
        Some(a) => joined(text_items(a@), ", "@),
        None => Seq::empty(),
    };
    "["@ + p.id@ + "] "@ + text_or_mark(p.label) + " ("@ + text_or_mark(p.from_node)
        + ")\n     abilities: "@ + abilities + "\n"@
}

/// The items that are text, in order.
fn texts_among(v: &Vec<Option<String>>) -> (r: Vec<String>)
    ensures
        texts(r@) == text_items(v@),
{
    let mut r: Vec<String> = Vec::new();
    let mut i: usize = 0;
    assert(texts(r@) == text_items(v@.take(0)));
    while i < v.len()
        invariant
            i <= v@.len(),
            texts(r@) == text_items(v@.take(i as int)),
        decreases v@.len() - i,
    {
        let ghost was = texts(r@);
        assert(v@.take(i + 1).drop_last() == v@.take(i as int));
        if let Some(s) = &v[i] {
            r.push(s.clone());
            assert(texts(r@) == was.push(s@));
        }
        i += 1;
    }
    assert(v@.take(v@.len() as int) == v@);
    r
}

/// What is printed for a pending request.
fn pending_block(p: &PendingRow) -> (r: String)
    ensures
        r@ == pending_text(*p),
{
    let mut r = "[".to_owned();
    r.append(p.id.as_str());
    r.append("] ");
    match &p.label {
        Some(t) => r.append(t.as_str()),
        None => r.append("?"),
    }
    r.append(" (");
    match &p.from_node {
        Some(t) => r.append(t.as_str()),
        None => r.append("?"),
    }
    r.append(")\n     abilities: ");
    let abilities = match &p.abilities {
        Some(a) => join(&texts_among(a), ", "),
        None => String::new(),
    };
    r.append(abilities.as_str());
    r.append("\n");
    r
}

/// What is printed for the pending requests.
pub open spec fn pending_lines(rows: Seq<PendingRow>) -> Seq<Seq<char>> {
    if rows.len() == 0 {
        seq!["No pending pairing requests."@]
    } else {
        Seq::new(rows.len(), |i: int| pending_text(rows[i])).push(
            "Accept with: ce-fleet accept <id>"@,
        )
    }
}

/// What is printed for the pending requests.
pub fn pending_list(rows: &Vec<PendingRow>) -> (r: Vec<String>)
    ensures
        texts(r@) == pending_lines(rows@),
        rows@.len() == 0 ==> r@.len() == 1 && r@[0]@ == "No pending pairing requests."@,
        rows@.len() > 0 ==> {
            &&& r@.len() == rows@.len() + 1
            &&& r@[rows@.len() as int]@ == "Accept with: ce-fleet accept <id>"@
            &&& forall|i: int|
                #![trigger r@[i]]
                0 <= i < rows@.len() ==> r@[i]@ == "["@ + rows@[i].id@ + "] "@ + (
                match rows@[i].label {
                    Some(t) => t@,
                    None => "?"@,
                }) + " ("@ + (match rows@[i].from_node {
                    Some(t) => t@,
                    None => "?"@,
                }) + ")\n     abilities: "@ + (match rows@[i].abilities {
                    Some(a) => joined(text_items(a@), ", "@),
                    None => Seq::empty(),
                }) + "\n"@
        },
{
    let mut r: Vec<String> = Vec::new();
    if rows.len() == 0 {
        r.push("No pending pairing requests.".to_owned());
        assert(texts(r@) == pending_lines(rows@));
        assert(texts(r@)[0] == r@[0]@);
        return r;
    }
    let ghost all = pending_lines(rows@);
    let mut i: usize = 0;
    assert(texts(r@) == all.take(0));
    while i < rows.len()
        invariant
            i <= rows@.len(),
            rows@.len() > 0,
            all == pending_lines(rows@),
            texts(r@) == all.take(i as int),
        decreases rows@.len() - i,
    {
        let ghost was = texts(r@);
        let block = pending_block(&rows[i]);
        r.push(block);
        assert(texts(r@) == was.push(block@));
        assert(all[i as int] == block@);
        assert(all.take(i + 1) == all.take(i as int).push(all[i as int]));
        i += 1;
    }
    let ghost was = texts(r@);
    r.push("Accept with: ce-fleet accept <id>".to_owned());
    assert(texts(r@) == was.push("Accept with: ce-fleet accept <id>"@));
    assert(all == all.take(rows@.len() as int).push(all[rows@.len() as int]));
    proof {
        assert(texts(r@).len() == r@.len());
        assert forall|i: int| 0 <= i < r@.len() implies (#[trigger] r@[i])@ == all[i] by {
            assert(texts(r@)[i] == r@[i]@);
        }
    }
    r
}

/// What is printed once the daemon was told of a decision on `id`. `ok` is whether it answered that
/// it took it; no answer counts as a refusal.
pub open spec fn decide_text(id: u64, accept: bool, ok: Option<bool>) -> Seq<char> {
    if ok == Some(true) {
        (if accept {
            "Accepted"@
        } else {
            "Denied"@
        }) + " request "@ + digits(id as nat) + "."@
    } else {
        "No such pending request "@ + digits(id as nat) + " (already decided or expired)."@
    }
}

/// What is printed once the daemon was told of a decision on `id` and answered `ok`.
pub fn decide_line(id: u64, accept: bool, ok: Option<bool>) -> (r: String)
    ensures
        r@ == decide_text(id, accept, ok),
        ok == Some(true) && accept ==> r@ == "Accepted"@ + " request "@ + digits(id as nat) + "."@,
        ok == Some(true) && !accept ==> r@ == "Denied"@ + " request "@ + digits(id as nat) + "."@,
        ok != Some(true) ==> r@ == "No such pending request "@ + digits(id as nat)
            + " (already decided or expired)."@,
{
    let mut r = String::new();
    let taken = match ok {
        Some(b) => b,
        None => false,
    };
    if taken {
        if accept {
            r.append("Accepted");
        } else {
            r.append("Denied");
        }
        r.append(" request ");
        push_decimal(&mut r, id);
        r.append(".");
    } else {
        r.append("No such pending request ");
        push_decimal(&mut r, id);
        r.append(" (already decided or expired).");
    }
    r
}

/// Where the daemon's local interface listens: the loopback address only.
pub fn ui_addr(port: u16) -> (r: String)
    ensures
        r@ == "127.0.0.1:"@ + digits(port as nat),
{
    let mut r = "127.0.0.1:".to_owned();
    push_decimal(&mut r, port as u64);
    r
}

/// The address of a call to the daemon's local interface.
pub fn api_url(port: u16, call: &str) -> (r: String)
    ensures
        r@ == "http://127.0.0.1:"@ + digits(port as nat) + "/api/"@ + call@,
{
    let mut r = "http://127.0.0.1:".to_owned();
    push_decimal(&mut r, port as u64);
    r.append("/api/");
    r.append(call);
    r
}

} // verus!
