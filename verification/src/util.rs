//! Small shared helpers: node ids, labels, the data directory and the time.
use std::time::{Duration, SystemTime, UNIX_EPOCH};

use vstd::prelude::*;
use vstd::string::*;
use vstd::utf8::*;

use crate::text::{
    ascii_hex_digit, ascii_lower, ascii_lowercase, chars_of, digits, lemma_trimmed_ends,
    lemma_trimmed_same, string_of, trim, trimmed,
};

verus! {

/// The first of the override, the environment's setting and the platform's directory that is
/// given, else `fallback`.
pub open spec fn chosen_dir<P>(over: Option<P>, env: Option<P>, platform: Option<P>, fallback: P) -> P {
    match over {
        Some(p) => p,
        None => match env {
            Some(p) => p,
            None => match platform {
                Some(p) => p,
                None => fallback,
            },
        },
    }
}

/// The data directory: the override, else what the environment sets, else the platform's own
/// directory, else `fallback`.
pub fn data_dir<P>(
    override_path: Option<P>,
    env_path: Option<P>,
    platform_path: Option<P>,
    fallback: P,
) -> (r: P)
    ensures
        r == chosen_dir(override_path, env_path, platform_path, fallback),
        override_path matches Some(p) ==> r == p,
        override_path is None ==> (env_path matches Some(p) ==> r == p),
        override_path is None && env_path is None ==> (platform_path matches Some(p) ==> r == p),
        override_path is None && env_path is None && platform_path is None ==> r == fallback,
{
    match override_path {
        Some(p) => p,
        None => match env_path {
            Some(p) => p,
            None => match platform_path {
                Some(p) => p,
                None => fallback,
            },
        },
    }
}

#[verifier::external_type_specification]
#[verifier::external_body]
pub struct ExSystemTime(SystemTime);

/// Calls `SystemTime::now`. It depends on the machine's clock, so nothing is claimed of it.
#[verifier::external_body]
fn clock() -> (t: SystemTime) {
    SystemTime::now()
}

/// Calls `SystemTime::duration_since` for the unix epoch: the time from it to `t`, or nothing
/// where `t` is earlier. A point in time is opaque here, so nothing is claimed of it.
#[verifier::external_body]
fn since_epoch(t: SystemTime) -> (r: Option<Duration>) {
    t.duration_since(UNIX_EPOCH).ok()
}

/// Calls `Duration::as_secs`, the whole seconds of a span of time. A span is opaque here, so
/// nothing is claimed of it.
#[verifier::external_body]
fn whole_secs(d: Duration) -> (r: u64) {
    d.as_secs()
}

/// The seconds that a clock reading gives, `0` where it lies before the epoch.
pub fn reading_secs(reading: Option<u64>) -> (r: u64)
    ensures
        r == (match reading {
            Some(s) => s,
            None => 0,
        }),
{
    match reading {
        Some(s) => s,
        None => 0,
    }
}

/// Whether `r` may be the unix time in seconds: the whole seconds of the span from the epoch to a
/// reading of the clock, `0` where the reading lies before the epoch.
pub closed spec fn clock_may_show(r: u64) -> bool {
    exists|t: SystemTime, span: Option<Duration>|
        {
            &&& call_ensures(clock, (), t)
            &&& #[trigger] call_ensures(since_epoch, (t,), span)
            &&& match span {
                Some(d) => call_ensures(whole_secs, (d,), r),
                None => r == 0,
            }
        }
}

/// The current unix time in seconds, `0` where the clock stands before the epoch.
pub fn now_secs() -> (r: u64)
    ensures
        clock_may_show(r),
{
    let t = clock();
    let span = since_epoch(t);
    let reading = match span {
        Some(d) => Some(whole_secs(d)),
        None => None,
    };
    reading_secs(reading)
}

/// What the clock shows counts whole seconds from the epoch to one of its readings, neither more nor
/// fewer, and nothing before the epoch.
proof fn the_clock_shows_whole_seconds(r: u64)
    requires
        clock_may_show(r),
    ensures
        exists|t: SystemTime, span: Option<Duration>|
            {
                &&& call_ensures(clock, (), t)
                &&& #[trigger] call_ensures(since_epoch, (t,), span)
                &&& span matches Some(d) ==> call_ensures(whole_secs, (d,), r)
                &&& span is None ==> r == 0
            },
{
}

/// The first twelve characters of `s`, or all of it where it is shorter.
pub open spec fn short(s: Seq<char>) -> Seq<char> {
    if s.len() <= 12 {
        s
    } else {
        s.take(12)
    }
}

/// A short form of a node id for logs and aliases: its first twelve characters.
pub fn short_id(node_id_hex: &str) -> (r: String)
    ensures
        r@ == short(node_id_hex@),
        r@.is_prefix_of(node_id_hex@),
        node_id_hex@.len() <= 12 ==> r@ == node_id_hex@,
        node_id_hex@.len() > 12 ==> r@.len() == 12,
{
    let v = chars_of(node_id_hex);
    let n: usize = if v.len() <= 12 {
        v.len()
    } else {
        12
    };
    string_of(&v, 0, n)
}

/// A short id is the front of the id: twelve characters of it, or all where there are no more.
pub proof fn short_ids_are_the_front(s: Seq<char>)
    ensures
        short(s).is_prefix_of(s),
        s.len() <= 12 ==> short(s) == s,
        s.len() > 12 ==> short(s).len() == 12,
{
}

/// The text of a candidate for a label, trimmed, where something is left of it.
pub open spec fn usable_label(candidate: Option<Seq<char>>) -> Option<Seq<char>> {
    match candidate {
        Some(s) => if trimmed(s).len() > 0 {
            Some(trimmed(s))
        } else {
            None
        },
        None => None,
    }
}

/// The text of a string that may be missing.
pub open spec fn opt_text(s: Option<String>) -> Option<Seq<char>> {
    match s {
        Some(s) => Some(s@),
        None => None,
    }
}

/// The first usable label among the candidates.
pub open spec fn first_usable(candidates: Seq<Option<String>>) -> Option<Seq<char>>
    decreases candidates.len(),
{
    if candidates.len() == 0 {
        None
    } else if usable_label(opt_text(candidates[0])) is Some {
        usable_label(opt_text(candidates[0]))
    } else {
        first_usable(candidates.skip(1))
    }
}

/// Whether none of the first `n` candidates has text besides white space.
pub open spec fn blank_before(candidates: Seq<Option<String>>, n: int) -> bool {
    forall|j: int|
        0 <= j < n ==> (#[trigger] candidates[j] matches Some(s) ==> trimmed(s@).len() == 0)
}

/// Candidates without text are passed over.
proof fn lemma_first_usable_skips(candidates: Seq<Option<String>>, n: int)
    requires
        0 <= n <= candidates.len(),
        blank_before(candidates, n),
    ensures
        first_usable(candidates) == first_usable(candidates.skip(n)),
    decreases n,
{
    if n == 0 {
        assert(candidates.skip(0) == candidates);
    } else {
        lemma_first_usable_skips(candidates, n - 1);
        let rest = candidates.skip(n - 1);
        assert(rest[0] == candidates[n - 1]);
        assert(rest.skip(1) == candidates.skip(n));
    }
}

/// The first candidate with text is the label, trimmed, whatever comes behind it.
pub proof fn the_first_candidate_with_text_is_the_label(
    candidates: Seq<Option<String>>,
    n: int,
    hostname_output: Option<Vec<u8>>,
    node_id: Seq<char>,
)
    requires
        0 <= n < candidates.len(),
        forall|j: int|
            0 <= j < n ==> (#[trigger] candidates[j] matches Some(s) ==> trimmed(s@).len() == 0),
        candidates[n] is Some,
        trimmed(candidates[n]->0@).len() > 0,
    ensures
        label_of(candidates, hostname_output, node_id) == trimmed(candidates[n]->0@),
{
    lemma_first_usable_skips(candidates, n);
    assert(candidates.skip(n)[0] == candidates[n]);
}

/// The candidate, trimmed, where something is left of it.
fn usable(candidate: &Option<String>) -> (r: Option<String>)
    ensures
        opt_text(r) == usable_label(opt_text(*candidate)),
{
    match candidate {
        Some(s) => {
            let t = trim(s.as_str());
            if t.as_str().is_empty() {
                None
            } else {
                Some(t)
            }
        },
        None => None,
    }
}

/// The first of the candidates that has text besides white space, trimmed.
pub fn first_label(candidates: &Vec<Option<String>>) -> (r: Option<String>)
    ensures
        opt_text(r) == first_usable(candidates@),
        r matches Some(l) ==> exists|i: int|
            0 <= i < candidates@.len() && #[trigger] candidates@[i] is Some && l@ == trimmed(
                candidates@[i]->0@,
            ) && l@.len() > 0 && (forall|j: int|
                0 <= j < i ==> (#[trigger] candidates@[j] matches Some(t) ==> trimmed(t@).len()
                    == 0)),
        r is None <==> (forall|j: int|
                0 <= j < candidates@.len() ==> (#[trigger] candidates@[j] matches Some(t) ==> trimmed(t@).len()
                    == 0)),
{
    let mut i: usize = 0;
    assert(candidates@.skip(0) == candidates@);
    while i < candidates.len()
        invariant
            i <= candidates@.len(),
            first_usable(candidates@) == first_usable(candidates@.skip(i as int)),
            blank_before(candidates@, i as int),
        decreases candidates@.len() - i,
    {
        let u = usable(&candidates[i]);
        assert(candidates@.skip(i as int)[0] == candidates@[i as int]);
        if u.is_some() {
            return u;
        }
        assert(candidates@.skip(i as int).skip(1) == candidates@.skip(i + 1));
        i += 1;
    }
    None
}

/// Calls `String::from_utf8`: the text that the bytes encode, where they are valid UTF-8.
#[verifier::external_body]
fn text_from_utf8(bytes: Vec<u8>) -> (r: Option<String>)
    ensures
        match r {
            Some(s) => valid_utf8(bytes@) && s@ == decode_utf8(bytes@),
            None => !valid_utf8(bytes@),
        },
{
    String::from_utf8(bytes).ok()
}

/// What a command printed, as text, where it printed valid UTF-8.
pub open spec fn printed_text(output: Option<Vec<u8>>) -> Option<Seq<char>> {
    match output {
        Some(b) => if valid_utf8(b@) {
            Some(decode_utf8(b@))
        } else {
            None
        },
        None => None,
    }
}

/// The label of a machine: the first usable candidate, else what the `hostname` command printed,
/// else a short node id.
pub open spec fn label_of(
    candidates: Seq<Option<String>>,
    hostname_output: Option<Vec<u8>>,
    node_id: Seq<char>,
) -> Seq<char> {
    match first_usable(candidates) {
        Some(l) => l,
        None => match usable_label(printed_text(hostname_output)) {
            Some(l) => l,
            None => short(node_id),
        },
    }
}

/// The friendly label of a machine for a pairing prompt: the first candidate with text, else the
/// name that the `hostname` command printed, else a short node id. It never fails.
pub fn device_label(
    candidates: &Vec<Option<String>>,
    hostname_output: Option<Vec<u8>>,
    node_id_hex: &str,
) -> (r: String)
    ensures
        r@ == label_of(candidates@, hostname_output, node_id_hex@),
        forall|i: int|
            0 <= i < candidates@.len() && (forall|j: int|
                0 <= j < i ==> (#[trigger] candidates@[j] matches Some(t) ==> trimmed(t@).len()
                    == 0)) && (
            #[trigger] candidates@[i] matches Some(s) && trimmed(s@).len() > 0) ==> r@ == trimmed(
                candidates@[i]->0@,
            ),
        (forall|j: int|
                0 <= j < candidates@.len() ==> (#[trigger] candidates@[j] matches Some(t) ==> trimmed(t@).len()
                    == 0)) ==> {
            let printed = hostname_output matches Some(b) && valid_utf8(b@) && trimmed(
                decode_utf8(b@),
            ).len() > 0;
            &&& printed ==> r@ == trimmed(decode_utf8(hostname_output->0@))
            &&& !printed ==> r@.is_prefix_of(node_id_hex@)
            &&& !printed && node_id_hex@.len() <= 12 ==> r@ == node_id_hex@
            &&& !printed && node_id_hex@.len() > 12 ==> r@.len() == 12
        },
{
    proof {
        assert forall|i: int|
            0 <= i < candidates@.len() && blank_before(candidates@, i) && (
            #[trigger] candidates@[i] matches Some(s) && trimmed(s@).len() > 0) implies first_usable(
            candidates@,
        ) == Some(trimmed(candidates@[i]->0@)) by {
            lemma_first_usable_skips(candidates@, i);
            assert(candidates@.skip(i)[0] == candidates@[i]);
        }
        if blank_before(candidates@, candidates@.len() as int) {
            lemma_first_usable_skips(candidates@, candidates@.len() as int);
        }
    }
    match first_label(candidates) {
        Some(l) => l,
        None => {
            let printed = match hostname_output {
                Some(bytes) => text_from_utf8(bytes),
                None => None,
            };
            match usable(&printed) {
                Some(l) => l,
                None => short_id(node_id_hex),
            }
        },
    }
}

/// The first usable label has text.
proof fn lemma_first_usable(candidates: Seq<Option<String>>)
    ensures
        first_usable(candidates) matches Some(l) ==> l.len() > 0,
    decreases candidates.len(),
{
    if candidates.len() > 0 {
        lemma_first_usable(candidates.skip(1));
    }
}

/// A machine with a node id always has a label.
pub proof fn labels_are_never_empty(
    candidates: Seq<Option<String>>,
    hostname_output: Option<Vec<u8>>,
    node_id: Seq<char>,
)
    requires
        node_id.len() > 0,
    ensures
        label_of(candidates, hostname_output, node_id).len() > 0,
{
    lemma_first_usable(candidates);
}

/// Whether the byte `b` is a hex digit of either case.
pub open spec fn hex_byte(b: u8) -> bool {
    48 <= b <= 57 || 65 <= b <= 70 || 97 <= b <= 102
}

/// The value of a hex digit.
pub open spec fn hex_value(b: u8) -> int {
    if b <= 57 {
        b - 48
    } else if b <= 70 {
        b - 55
    } else {
        b - 87
    }
}

/// The index of the first byte that is no hex digit, or the length where there is none.
pub open spec fn first_not_hex(b: Seq<u8>) -> int
    decreases b.len(),
{
    if b.len() == 0 || !hex_byte(b[0]) {
        0
    } else {
        1 + first_not_hex(b.skip(1))
    }
}

/// The bytes that pairs of hex digits write.
pub open spec fn hex_pairs(b: Seq<u8>) -> Seq<u8> {
    Seq::new(b.len() / 2, |i: int| (16 * hex_value(b[2 * i]) + hex_value(b[2 * i + 1])) as u8)
}

/// Why a text is no hex string.
#[derive(Debug, Clone, Copy, PartialEq, Eq, Structural)]
pub enum HexError {
    /// It holds something else than hex digits.
    InvalidHexCharacter {
        /// The byte found there.
        c: char,
        /// Where it stands.
        index: usize,
    },
    /// It does not have two digits for each byte.
    OddLength,
    /// Its length does not fit.
    InvalidStringLength,
}

/// What decoding hex digits gives.
pub open spec fn hex_decoded(b: Seq<u8>) -> Result<Seq<u8>, HexError> {
    let bad = first_not_hex(b);
    if b.len() % 2 != 0 {
        Err(HexError::OddLength)
    } else if bad < b.len() {
        Err(HexError::InvalidHexCharacter { c: b[bad] as char, index: bad as usize })
    } else {
        Ok(hex_pairs(b))
    }
}

/// Calls `hex::decode`: two hex digits of either case for each byte. An odd number of bytes of
/// text comes first among the errors, then the first byte that is no hex digit, given as the
/// character with its number, with its index.
#[verifier::external_body]
fn hex_decode(text: &str) -> (r: Result<Vec<u8>, HexError>)
    ensures
        match r {
            Ok(bytes) => hex_decoded(encode_utf8(text@)) == Ok::<Seq<u8>, HexError>(bytes@),
            Err(e) => hex_decoded(encode_utf8(text@)) == Err::<Seq<u8>, HexError>(e),
        },
{
    hex::decode(text).map_err(
        |e| match e {
            hex::FromHexError::InvalidHexCharacter { c, index } => {
                HexError::InvalidHexCharacter { c, index }
            },
            hex::FromHexError::OddLength => HexError::OddLength,
            hex::FromHexError::InvalidStringLength => HexError::InvalidStringLength,
        },
    )
}

/// A character as its `Debug` form shows it: in single quotes, escaped where it needs to be.
pub uninterp spec fn quoted(c: char) -> Seq<char>;

/// What a [`HexError`] says.
pub open spec fn hex_error_text(e: HexError) -> Seq<char> {
    match e {
        HexError::InvalidHexCharacter { c, index } => "Invalid character "@ + quoted(c)
            + " at position "@ + digits(index as nat),
        HexError::OddLength => "Odd number of digits"@,
        HexError::InvalidStringLength => "Invalid string length"@,
    }
}

/// Calls the `Display` form of `hex::FromHexError`: a fixed sentence for each kind, which for an
/// invalid character holds its `Debug` form and its position in decimal digits.
#[verifier::external_body]
fn hex_error_words(e: &HexError) -> (r: String)
    ensures
        match *e {
            HexError::InvalidHexCharacter { c, index } => r@ == "Invalid character "@ + quoted(c)
                + " at position "@ + digits(index as nat),
            HexError::OddLength => r@ == "Odd number of digits"@,
            HexError::InvalidStringLength => r@ == "Invalid string length"@,
        },
{
    match *e {
        HexError::InvalidHexCharacter { c, index } => {
            hex::FromHexError::InvalidHexCharacter { c, index }
        },
        HexError::OddLength => hex::FromHexError::OddLength,
        HexError::InvalidStringLength => hex::FromHexError::InvalidStringLength,
    }.to_string()
}

/// Why a text is no node id.
#[derive(Debug, Clone, Copy, PartialEq, Eq, Structural)]
pub enum NodeIdError {
    /// It is no hex string.
    Hex(HexError),
    /// It does not write 32 bytes.
    Length,
}

/// The bytes of the node id that `s` writes, white space around it aside.
pub open spec fn node_id(s: Seq<char>) -> Result<Seq<u8>, NodeIdError> {
    match hex_decoded(encode_utf8(trimmed(s))) {
        Err(e) => Err(NodeIdError::Hex(e)),
        Ok(b) => if b.len() == 32 {
            Ok(b)
        } else {
            Err(NodeIdError::Length)
        },
    }
}

/// What a [`NodeIdError`] says.
pub open spec fn node_id_error_text(e: NodeIdError) -> Seq<char> {
    match e {
        NodeIdError::Hex(e) => "invalid node id hex: "@ + hex_error_text(e),
        NodeIdError::Length => "node id must be 32 bytes (64 hex chars)"@,
    }
}

impl NodeIdError {
    /// The error in words.
    pub fn message(&self) -> (r: String)
        ensures
            r@ == node_id_error_text(*self),
            *self == NodeIdError::Length ==> r@ == "node id must be 32 bytes (64 hex chars)"@,
            *self == NodeIdError::Hex(HexError::OddLength) ==> r@ == "invalid node id hex: "@
                + "Odd number of digits"@,
            *self == NodeIdError::Hex(HexError::InvalidStringLength) ==> r@
                == "invalid node id hex: "@ + "Invalid string length"@,
            *self matches NodeIdError::Hex(HexError::InvalidHexCharacter { c, index }) ==> r@
                == "invalid node id hex: "@ + ("Invalid character "@ + quoted(c) + " at position "@
                + digits(index as nat)),
    {
        match self {
            NodeIdError::Hex(e) => {
                let mut r = "invalid node id hex: ".to_owned();
                r.append(hex_error_words(e).as_str());
                r
            },
            NodeIdError::Length => "node id must be 32 bytes (64 hex chars)".to_owned(),
        }
    }
}

/// Whether `s` writes a node id in full: 64 hex digits.
pub open spec fn full_hex_id(s: Seq<char>) -> bool {
    s.len() == 64 && forall|i: int| 0 <= i < s.len() ==> ascii_hex_digit(#[trigger] s[i])
}

/// A character with a small number is an ASCII character.
proof fn lemma_small_char(c: char)
    ensures
        c as u32 <= 0x7f ==> '\0' <= c <= '\u{7f}' && c as u8 == c as u32,
{
}

/// Text whose encoding holds hex digits only is hex digits only.
proof fn lemma_hex_bytes_are_text(s: Seq<char>)
    requires
        forall|i: int| 0 <= i < encode_utf8(s).len() ==> hex_byte(#[trigger] encode_utf8(s)[i]),
    ensures
        is_ascii_chars(s),
        forall|i: int| 0 <= i < s.len() ==> ascii_hex_digit(#[trigger] s[i]),
    decreases s.len(),
{
    if s.len() > 0 {
        let c = s[0] as u32;
        let b = encode_utf8(s);
        let rest = s.drop_first();
        let head = encode_scalar(c);
        char_is_scalar(s[0]);
        assert(b[0] == head[0]);
        assert(hex_byte(b[0]));
        assert(0xC0u8 | ((c >> 6) & 0x1F) as u8 >= 0xC0) by (bit_vector);
        assert(0xE0u8 | ((c >> 12) & 0x0F) as u8 >= 0xC0) by (bit_vector);
        assert(0xF0u8 | ((c >> 18) & 0x7) as u8 >= 0xC0) by (bit_vector);
        assert(c <= 0x7f);
        assert((c & 0x7F) as u8 == c) by (bit_vector)
            requires
                c <= 0x7f,
        ;
        lemma_small_char(s[0]);
        assert(ascii_hex_digit(s[0]));
        assert forall|i: int| 0 <= i < encode_utf8(rest).len() implies hex_byte(
            #[trigger] encode_utf8(rest)[i],
        ) by {
            assert(b[head.len() + i] == encode_utf8(rest)[i]);
        }
        lemma_hex_bytes_are_text(rest);
        assert forall|i: int| 0 <= i < s.len() implies ascii_hex_digit(#[trigger] s[i]) by {
            if i > 0 {
                assert(rest[i - 1] == s[i]);
            }
        }
        assert forall|i: int| 0 <= i < s.len() implies '\0' <= #[trigger] s[i] <= '\u{7f}' by {
            assert(ascii_hex_digit(s[i]));
        }
    }
}

/// Hex digits are encoded as hex digits, one byte each.
proof fn lemma_hex_text_is_bytes(s: Seq<char>)
    requires
        forall|i: int| 0 <= i < s.len() ==> ascii_hex_digit(#[trigger] s[i]),
    ensures
        encode_utf8(s).len() == s.len(),
        forall|i: int|
            0 <= i < s.len() ==> hex_byte(#[trigger] encode_utf8(s)[i]) && encode_utf8(s)[i]
                == s[i] as u8,
        trimmed(s) == s,
{
    assert forall|i: int| 0 <= i < s.len() implies '\0' <= #[trigger] s[i] <= '\u{7f}' by {
        assert(ascii_hex_digit(s[i]));
    }
    assert(is_ascii_chars(s));
    is_ascii_chars_encode_utf8(s);
    assert forall|i: int| 0 <= i < s.len() implies hex_byte(#[trigger] encode_utf8(s)[i])
        && encode_utf8(s)[i] == s[i] as u8 by {
        assert(ascii_hex_digit(s[i]));
    }
    if s.len() > 0 {
        assert(ascii_hex_digit(s[0]));
        assert(ascii_hex_digit(s[s.len() - 1]));
    }
    lemma_trimmed_same(s);
}

/// `first_not_hex` passes hex digits only, and stops at the end or at something else.
proof fn lemma_first_not_hex(b: Seq<u8>)
    ensures
        0 <= first_not_hex(b) <= b.len(),
        first_not_hex(b) < b.len() ==> !hex_byte(b[first_not_hex(b)]),
        forall|i: int| 0 <= i < first_not_hex(b) ==> hex_byte(#[trigger] b[i]),
    decreases b.len(),
{
    if b.len() > 0 && hex_byte(b[0]) {
        let t = b.skip(1);
        lemma_first_not_hex(t);
        assert forall|i: int| 0 <= i < first_not_hex(b) implies hex_byte(#[trigger] b[i]) by {
            if i > 0 {
                assert(t[i - 1] == b[i]);
            }
        }
    }
}

/// The node ids are the texts of 64 hex digits, white space around them aside.
pub proof fn node_ids_are_64_hex_digits(s: Seq<char>)
    ensures
        node_id(s) is Ok <==> full_hex_id(trimmed(s)),
{
    let t = trimmed(s);
    let b = encode_utf8(t);
    lemma_first_not_hex(b);
    if node_id(s) is Ok {
        lemma_hex_bytes_are_text(t);
        lemma_hex_text_is_bytes(t);
    }
    if full_hex_id(t) {
        lemma_hex_text_is_bytes(t);
    }
}

/// White space around a node id does not matter.
pub proof fn node_id_ignores_white_space(s: Seq<char>)
    ensures
        node_id(trimmed(s)) == node_id(s),
{
    lemma_trimmed_ends(s);
    lemma_trimmed_same(trimmed(s));
}

/// The case of the letters in a node id does not matter.
pub proof fn node_id_ignores_case(s: Seq<char>)
    requires
        full_hex_id(s),
    ensures
        node_id(ascii_lowercase(s)) == node_id(s),
{
    let l = ascii_lowercase(s);
    assert forall|i: int| 0 <= i < l.len() implies ascii_hex_digit(#[trigger] l[i]) by {
        assert(ascii_hex_digit(s[i]));
    }
    lemma_hex_text_is_bytes(s);
    lemma_hex_text_is_bytes(l);
    let b = encode_utf8(s);
    let c = encode_utf8(l);
    lemma_first_not_hex(b);
    lemma_first_not_hex(c);
    assert forall|i: int| 0 <= i < 64 implies #[trigger] hex_value(b[i]) == hex_value(c[i]) by {
        assert(ascii_hex_digit(s[i]));
        assert(hex_byte(b[i]) && hex_byte(c[i]));
        assert(l[i] == ascii_lower(s[i]));
    }
    assert forall|i: int| 0 <= i < 32 implies hex_pairs(b)[i] == hex_pairs(c)[i] by {
        assert(hex_value(b[2 * i]) == hex_value(c[2 * i]));
        assert(hex_value(b[2 * i + 1]) == hex_value(c[2 * i + 1]));
    }
    assert(hex_pairs(b) == hex_pairs(c));
}

/// The small hex digit with the value `v`.
pub open spec fn hex_digit(v: u8) -> char {
    if v < 10 {
        (48 + v) as char
    } else {
        (87 + v) as char
    }
}

/// Two small hex digits for each byte.
pub open spec fn hex_text(b: Seq<u8>) -> Seq<char> {
    Seq::new(
        2 * b.len(),
        |i: int|
            if i % 2 == 0 {
                hex_digit(b[i / 2] / 16)
            } else {
                hex_digit(b[i / 2] % 16)
            },
    )
}

/// Every 32 bytes are read back from their hex digits.
pub proof fn node_id_round_trip(b: Seq<u8>)
    requires
        b.len() == 32,
    ensures
        node_id(hex_text(b)) == Ok::<Seq<u8>, NodeIdError>(b),
{
    let s = hex_text(b);
    assert forall|i: int| 0 <= i < s.len() implies ascii_hex_digit(#[trigger] s[i]) by {
        let v = b[i / 2];
        assert(v / 16 < 16 && v % 16 < 16);
    }
    lemma_hex_text_is_bytes(s);
    let e = encode_utf8(s);
    lemma_first_not_hex(e);
    assert forall|i: int| 0 <= i < 32 implies hex_pairs(e)[i] == b[i] by {
        assert(s[2 * i] == hex_digit(b[i] / 16));
        assert(s[2 * i + 1] == hex_digit(b[i] % 16));
        assert(hex_value(e[2 * i]) == b[i] / 16);
        assert(hex_value(e[2 * i + 1]) == b[i] % 16);
    }
    assert(hex_pairs(e) == b);
}

/// Parses a hex node id (64 characters, white space around it aside) into its 32 bytes.
pub fn parse_node_id(hex_str: &str) -> (r: Result<[u8; 32], NodeIdError>)
    ensures
        match r {
            Ok(id) => node_id(hex_str@) == Ok::<Seq<u8>, NodeIdError>(id@),
            Err(e) => node_id(hex_str@) == Err::<Seq<u8>, NodeIdError>(e),
        },
        r is Ok <==> full_hex_id(trimmed(hex_str@)),
        r is Ok <==> trimmed(hex_str@).len() == 64 && forall|i: int|
            0 <= i < trimmed(hex_str@).len() ==> {
                let c = #[trigger] trimmed(hex_str@)[i];
                '0' <= c <= '9' || 'a' <= c <= 'f' || 'A' <= c <= 'F'
            },
        match hex_decoded(encode_utf8(trimmed(hex_str@))) {
            Err(e) => r == Err::<[u8; 32], NodeIdError>(NodeIdError::Hex(e)),
            Ok(b) => if b.len() == 32 {
                r matches Ok(id) && id@ == b
            } else {
                r == Err::<[u8; 32], NodeIdError>(NodeIdError::Length)
            },
        },
{
    proof {
        node_ids_are_64_hex_digits(hex_str@);
    }
    let t = trim(hex_str);
    let bytes = match hex_decode(t.as_str()) {
        Ok(b) => b,
        Err(e) => return Err(NodeIdError::Hex(e)),
    };
    if bytes.len() != 32 {
        return Err(NodeIdError::Length);
    }
    let mut id: [u8; 32] = [0u8; 32];
    let mut i: usize = 0;
    while i < 32
        invariant
            i <= 32,
            bytes@.len() == 32,
            id@.take(i as int) == bytes@.take(i as int),
        decreases 32 - i,
    {
        let ghost was = id@;
        id[i] = bytes[i];
        assert(id@.take(i + 1) == was.take(i as int).push(bytes@[i as int]));
        i += 1;
    }
    assert(id@.take(32) == id@);
    assert(bytes@.take(32) == bytes@);
    Ok(id)
}

} // verus!
