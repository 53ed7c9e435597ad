//! Plain text, seen as a sequence of characters: trimming, joining, padding, decimal numbers.
use vstd::prelude::*;
use vstd::string::*;

verus! {

/// Appends one character at the end of the string, as `String::push` documents.
pub assume_specification[ String::push ](s: &mut String, c: char)
    ensures
        final(s)@ == old(s)@.push(c),
;

/// The texts that a sequence of strings holds.
pub open spec fn texts(v: Seq<String>) -> Seq<Seq<char>> {
    v.map_values(|s: String| s@)
}

/// The texts of strings are those of each of them, in order.
pub proof fn texts_are_those_of_each(v: Seq<String>, i: int)
    requires
        0 <= i < v.len(),
    ensures
        texts(v).len() == v.len(),
        texts(v)[i] == v[i]@,
{
}

/// The characters of `s`, in order.
pub(crate) fn chars_of(s: &str) -> (v: Vec<char>)
    ensures
        v@ == s@,
{
    let mut v: Vec<char> = Vec::new();
    for c in it: s.chars()
        invariant
            v@ == it.seq().take(it.index()),
            it.seq() == s@,
    {
        v.push(c);
    }
    v
}

/// The characters of `v` from `from` up to `to`, as a string.
pub(crate) fn string_of(v: &Vec<char>, from: usize, to: usize) -> (s: String)
    requires
        from <= to <= v@.len(),
    ensures
        s@ == v@.subrange(from as int, to as int),
{
    let mut s = String::new();
    let mut i: usize = from;
    while i < to
        invariant
            from <= i <= to <= v@.len(),
            s@ == v@.subrange(from as int, i as int),
        decreases to - i,
    {
        s.push(v[i]);
        i += 1;
    }
    s
}

/// Whether two strings hold the same text.
pub(crate) fn same_text(a: &str, b: &str) -> (r: bool)
    ensures
        r == (a@ == b@),
{
    a.to_owned() == b.to_owned()
}

/// A copy of a list of strings.
pub(crate) fn copy_texts(v: &Vec<String>) -> (r: Vec<String>)
    ensures
        r@ == v@,
{
    let mut r: Vec<String> = Vec::new();
    let mut i: usize = 0;
    while i < v.len()
        invariant
            i <= v@.len(),
            r@ == v@.take(i as int),
        decreases v@.len() - i,
    {
        r.push(v[i].clone());
        i += 1;
    }
    r
}

/// The characters with the Unicode property White_Space.
pub open spec fn white_space(c: char) -> bool {
    let n = c as u32;
    ||| 0x9 <= n <= 0xd
    ||| n == 0x20
    ||| n == 0x85
    ||| n == 0xa0
    ||| n == 0x1680
    ||| 0x2000 <= n <= 0x200a
    ||| n == 0x2028
    ||| n == 0x2029
    ||| n == 0x202f
    ||| n == 0x205f
    ||| n == 0x3000
}

/// The white space below U+0100 is the controls from tab to carriage return, the space, the next
/// line control and the no-break space. Above that it is the blanks from U+1680 to U+3000.
pub proof fn white_space_is_blank(c: char)
    ensures
        '\t' <= c <= '\r' || c == ' ' || c == '\u{85}' || c == '\u{a0}' ==> white_space(c),
        c <= '\u{ff}' && white_space(c) ==> '\t' <= c <= '\r' || c == ' ' || c == '\u{85}' || c
            == '\u{a0}',
        c > '\u{ff}' ==> (white_space(c) <==> c == '\u{1680}' || '\u{2000}' <= c <= '\u{200a}' || c
            == '\u{2028}' || c == '\u{2029}' || c == '\u{202f}' || c == '\u{205f}' || c
            == '\u{3000}'),
{
}

/// Whether `c` has the Unicode property White_Space.
pub(crate) fn is_white_space(c: char) -> (r: bool)
    ensures
        r == white_space(c),
{
    let n: u32 = c as u32;
    (0x9 <= n && n <= 0xd) || n == 0x20 || n == 0x85 || n == 0xa0 || n == 0x1680 || (0x2000 <= n
        && n <= 0x200a) || n == 0x2028 || n == 0x2029 || n == 0x202f || n == 0x205f || n == 0x3000
}

/// `s` without what it begins with, as far as `p` holds of it.
pub open spec fn stripped_start(s: Seq<char>, p: spec_fn(char) -> bool) -> Seq<char>
    decreases s.len(),
{
    if s.len() > 0 && p(s[0]) {
        stripped_start(s.skip(1), p)
    } else {
        s
    }
}

/// `s` without what it ends with, as far as `p` holds of it.
pub open spec fn stripped_end(s: Seq<char>, p: spec_fn(char) -> bool) -> Seq<char>
    decreases s.len(),
{
    if s.len() > 0 && p(s.last()) {
        stripped_end(s.drop_last(), p)
    } else {
        s
    }
}

/// `s` without what it begins and ends with, as far as `p` holds of it.
pub open spec fn stripped(s: Seq<char>, p: spec_fn(char) -> bool) -> Seq<char> {
    stripped_end(stripped_start(s, p), p)
}

/// Where the text that stripping leaves begins and ends; of all that stands outside `p` holds.
pub(crate) proof fn lemma_stripped_span(s: Seq<char>, p: spec_fn(char) -> bool) -> (r: (int, int))
    ensures
        0 <= r.0 <= r.1 <= s.len(),
        stripped(s, p) == s.subrange(r.0, r.1),
        forall|i: int| 0 <= i < r.0 || r.1 <= i < s.len() ==> p(#[trigger] s[i]),
        r.0 < r.1 ==> !p(s[r.0]) && !p(s[r.1 - 1]),
    decreases s.len(),
{
    if s.len() > 0 && p(s[0]) {
        let t = s.skip(1);
        let (a, b) = lemma_stripped_span(t, p);
        assert(s.subrange(a + 1, b + 1) == t.subrange(a, b));
        assert forall|i: int| 0 <= i < a + 1 || b + 1 <= i < s.len() implies p(
            #[trigger] s[i],
        ) by {
            if i > 0 {
                assert(t[i - 1] == s[i]);
            }
        }
        (a + 1, b + 1)
    } else if s.len() > 0 && p(s.last()) {
        let t = s.drop_last();
        let (a, b) = lemma_stripped_span(t, p);
        assert(stripped_start(s, p) == s && stripped_start(t, p) == t);
        assert(s.subrange(a, b) == t.subrange(a, b));
        assert forall|i: int| 0 <= i < a || b <= i < s.len() implies p(#[trigger] s[i]) by {
            if i < t.len() {
                assert(t[i] == s[i]);
            }
        }
        (a, b)
    } else {
        assert(s.subrange(0, s.len() as int) == s);
        (0, s.len() as int)
    }
}

/// What is stripped is all around that `p` holds of.
pub(crate) proof fn lemma_stripped_is(s: Seq<char>, p: spec_fn(char) -> bool, a: int, b: int)
    requires
        0 <= a <= b <= s.len(),
        forall|i: int| 0 <= i < a || b <= i < s.len() ==> p(#[trigger] s[i]),
        a < b ==> !p(s[a]) && !p(s[b - 1]),
    ensures
        stripped(s, p) == s.subrange(a, b),
{
    let (c, d) = lemma_stripped_span(s, p);
    if a < b && c < d {
        assert(c == a && b == d);
    } else if a < b {
        assert(p(s[a]));
    } else if c < d {
        assert(p(s[c]));
    } else {
        assert(s.subrange(a, b) == s.subrange(c, d));
    }
}

/// The white space, as something to strip.
pub open spec fn white() -> spec_fn(char) -> bool {
    |c: char| white_space(c)
}

/// `s` without the white space it begins and ends with.
pub open spec fn trimmed(s: Seq<char>) -> Seq<char> {
    stripped(s, white())
}

/// Where the text that trimming leaves begins and ends; all that stands outside is white space.
pub(crate) proof fn lemma_trimmed_span(s: Seq<char>) -> (r: (int, int))
    ensures
        0 <= r.0 <= r.1 <= s.len(),
        trimmed(s) == s.subrange(r.0, r.1),
        forall|i: int| 0 <= i < r.0 || r.1 <= i < s.len() ==> white_space(#[trigger] s[i]),
        r.0 < r.1 ==> !white_space(s[r.0]) && !white_space(s[r.1 - 1]),
{
    let (a, b) = lemma_stripped_span(s, white());
    assert forall|i: int| 0 <= i < a || b <= i < s.len() implies white_space(#[trigger] s[i]) by {
        assert(white()(s[i]));
    }
    (a, b)
}

/// White space around a text is what trimming takes off.
pub(crate) proof fn lemma_trimmed_is(s: Seq<char>, a: int, b: int)
    requires
        0 <= a <= b <= s.len(),
        forall|i: int| 0 <= i < a || b <= i < s.len() ==> white_space(#[trigger] s[i]),
        a < b ==> !white_space(s[a]) && !white_space(s[b - 1]),
    ensures
        trimmed(s) == s.subrange(a, b),
{
    lemma_stripped_is(s, white(), a, b);
}

/// Trimming leaves text with no white space at its ends.
pub(crate) proof fn lemma_trimmed_ends(s: Seq<char>)
    ensures
        trimmed(s).len() > 0 ==> !white_space(trimmed(s)[0]) && !white_space(trimmed(s).last()),
{
    let (a, b) = lemma_trimmed_span(s);
}

/// Text without white space at its ends is left alone by trimming.
pub(crate) proof fn lemma_trimmed_same(s: Seq<char>)
    requires
        s.len() > 0 ==> !white_space(s[0]) && !white_space(s.last()),
    ensures
        trimmed(s) == s,
{
    lemma_trimmed_is(s, 0, s.len() as int);
    assert(s.subrange(0, s.len() as int) == s);
}

/// Trimming takes off the white space around a text and nothing of the text: what begins and ends
/// with something else comes back whole.
pub proof fn trimming_gives_back_the_text(front: Seq<char>, s: Seq<char>, back: Seq<char>)
    requires
        forall|i: int| 0 <= i < front.len() ==> white_space(#[trigger] front[i]),
        forall|i: int| 0 <= i < back.len() ==> white_space(#[trigger] back[i]),
        s.len() > 0 ==> !white_space(s[0]) && !white_space(s.last()),
    ensures
        trimmed(front + s + back) == s,
{
    trimming_ignores_white_space_around(front, s, back);
    lemma_trimmed_same(s);
}

/// White space put around a text does not change what trimming leaves of it.
pub proof fn trimming_ignores_white_space_around(
    front: Seq<char>,
    s: Seq<char>,
    back: Seq<char>,
)
    requires
        forall|i: int| 0 <= i < front.len() ==> white_space(#[trigger] front[i]),
        forall|i: int| 0 <= i < back.len() ==> white_space(#[trigger] back[i]),
    ensures
        trimmed(front + s + back) == trimmed(s),
{
    let (a, b) = lemma_trimmed_span(s);
    let all = front + s + back;
    let n = front.len() as int;
    assert forall|i: int| 0 <= i < n + a || n + b <= i < all.len() implies white_space(
        #[trigger] all[i],
    ) by {
        if i < n {
            assert(all[i] == front[i]);
        } else if i < n + s.len() {
            assert(all[i] == s[i - n]);
        } else {
            assert(all[i] == back[i - n - s.len()]);
        }
    }
    lemma_trimmed_is(all, n + a, n + b);
    assert(all.subrange(n + a, n + b) == s.subrange(a, b));
}

/// Making `A` to `Z` small and trimming can be done in either order.
pub proof fn trimming_ignores_case(s: Seq<char>)
    ensures
        trimmed(ascii_lowercase(s)) == ascii_lowercase(trimmed(s)),
{
    let l = ascii_lowercase(s);
    let (a, b) = lemma_trimmed_span(s);
    assert forall|i: int| 0 <= i < s.len() implies white_space(#[trigger] l[i]) == white_space(
        s[i],
    ) by {
        assert(l[i] == ascii_lower(s[i]));
    }
    assert forall|i: int| 0 <= i < a || b <= i < l.len() implies white_space(#[trigger] l[i]) by {
        assert(white_space(s[i]));
    }
    lemma_trimmed_is(l, a, b);
    assert(l.subrange(a, b) == ascii_lowercase(s.subrange(a, b)));
}

/// The text of `s` without leading and trailing white space.
pub fn trim(s: &str) -> (r: String)
    ensures
        r@ == trimmed(s@),
{
    let v = chars_of(s);
    let mut from: usize = 0;
    assert(v@.skip(0) == v@);
    while from < v.len() && is_white_space(v[from])
        invariant
            from <= v@.len(),
            stripped_start(v@, white()) == stripped_start(v@.skip(from as int), white()),
        decreases v@.len() - from,
    {
        assert(v@.skip(from as int).skip(1) == v@.skip(from + 1));
        from += 1;
    }
    let mut to: usize = v.len();
    assert(v@.subrange(from as int, to as int) == v@.skip(from as int));
    while to > from && is_white_space(v[to - 1])
        invariant
            from <= to <= v@.len(),
            stripped_end(v@.skip(from as int), white()) == stripped_end(
                v@.subrange(from as int, to as int),
                white(),
            ),
        decreases to,
    {
        assert(v@.subrange(from as int, to as int).drop_last() == v@.subrange(
            from as int,
            to - 1,
        ));
        to -= 1;
    }
    string_of(&v, from, to)
}

/// The texts of `v` one after another, with `sep` between each two.
pub open spec fn joined(v: Seq<Seq<char>>, sep: Seq<char>) -> Seq<char>
    decreases v.len(),
{
    if v.len() == 0 {
        Seq::empty()
    } else if v.len() == 1 {
        v[0]
    } else {
        joined(v.drop_last(), sep) + sep + v.last()
    }
}

/// One more text comes behind those before it, with the separator between them; a text alone comes
/// as it is, and no text gives nothing.
pub proof fn joining_goes_on_with_the_separator(v: Seq<Seq<char>>, t: Seq<char>, sep: Seq<char>)
    ensures
        joined(Seq::empty(), sep) == Seq::<char>::empty(),
        joined(seq![t], sep) == t,
        v.len() > 0 ==> joined(v.push(t), sep) == joined(v, sep) + sep + t,
{
    assert(v.push(t).drop_last() == v);
}

/// The texts of `v` one after another, with `sep` between each two.
pub(crate) fn join(v: &Vec<String>, sep: &str) -> (r: String)
    ensures
        r@ == joined(texts(v@), sep@),
{
    let mut r = String::new();
    let mut i: usize = 0;
    while i < v.len()
        invariant
            i <= v@.len(),
            r@ == joined(texts(v@).take(i as int), sep@),
        decreases v@.len() - i,
    {
        if i > 0 {
            r.append(sep);
        }
        r.append(v[i].as_str());
        proof {
            let t = texts(v@);
            assert(t.take(i + 1).drop_last() == t.take(i as int));
            if i == 0 {
                assert(r@ == v@[0]@);
            }
        }
        i += 1;
    }
    assert(texts(v@).take(v@.len() as int) == texts(v@));
    r
}

/// The character of a decimal digit.
pub open spec fn digit(d: nat) -> char {
    (48 + d) as char
}

/// The decimal digits of `n`, without leading zeros.
pub open spec fn digits(n: nat) -> Seq<char>
    decreases n,
{
    if n < 10 {
        seq![digit(n)]
    } else {
        digits(n / 10).push(digit(n % 10))
    }
}

/// Appends the decimal digits of `n`.
pub(crate) fn push_decimal(s: &mut String, n: u64)
    ensures
        final(s)@ == old(s)@ + digits(n as nat),
    decreases n,
{
    if n >= 10 {
        push_decimal(s, n / 10);
    }
    let c: char = (48u8 + (n % 10) as u8) as char;
    s.push(c);
}

/// The decimal digits of `n`.
pub(crate) fn decimal(n: u64) -> (s: String)
    ensures
        s@ == digits(n as nat),
{
    let mut s = String::new();
    push_decimal(&mut s, n);
    s
}

/// Whether `c` is a decimal digit.
pub open spec fn is_digit(c: char) -> bool {
    '0' <= c <= '9'
}

/// Whether `s` holds decimal digits only.
pub open spec fn all_digits(s: Seq<char>) -> bool {
    forall|i: int| 0 <= i < s.len() ==> is_digit(#[trigger] s[i])
}

/// The number that a sequence of decimal digits writes.
pub open spec fn digits_value(s: Seq<char>) -> nat
    decreases s.len(),
{
    if s.len() == 0 {
        0
    } else {
        10 * digits_value(s.drop_last()) + (s.last() as int - 48) as nat
    }
}

/// What follows a plus sign at the front of `s`, or all of `s` where there is none.
pub open spec fn unsigned_part(s: Seq<char>) -> Seq<char> {
    if s.len() > 0 && s[0] == '+' {
        s.skip(1)
    } else {
        s
    }
}

/// The 64-bit number that `s` writes: an optional plus sign, then one or more decimal digits.
pub open spec fn parsed_u64(s: Seq<char>) -> Option<u64> {
    let body = unsigned_part(s);
    if body.len() > 0 && all_digits(body) && digits_value(body) <= u64::MAX {
        Some(digits_value(body) as u64)
    } else {
        None
    }
}

/// More digits never write a smaller number.
proof fn lemma_digits_value_grows(s: Seq<char>, k: int)
    requires
        0 <= k <= s.len(),
    ensures
        digits_value(s.take(k)) <= digits_value(s),
    decreases s.len() - k,
{
    if k < s.len() {
        assert(s.take(k + 1).drop_last() == s.take(k));
        lemma_digits_value_grows(s, k + 1);
    } else {
        assert(s.take(k) == s);
    }
}

/// Reads the characters of `v` from `from` up to `to` as a 64-bit number.
pub(crate) fn parse_u64(v: &Vec<char>, from: usize, to: usize) -> (r: Option<u64>)
    requires
        from <= to <= v@.len(),
    ensures
        r == parsed_u64(v@.subrange(from as int, to as int)),
{
    let ghost s = v@.subrange(from as int, to as int);
    let mut start: usize = from;
    if from < to && v[from] == '+' {
        start = from + 1;
    }
    let ghost body = unsigned_part(s);
    assert(body == v@.subrange(start as int, to as int));
    if start == to {
        return None;
    }
    let mut n: u64 = 0;
    let mut i: usize = start;
    assert(body.take(0).len() == 0);
    while i < to
        invariant
            start <= i <= to <= v@.len(),
            body == v@.subrange(start as int, to as int),
            body == unsigned_part(s),
            s == v@.subrange(from as int, to as int),
            all_digits(body.take(i - start)),
            n == digits_value(body.take(i - start)),
        decreases to - i,
    {
        let c: char = v[i];
        let ghost k = i - start;
        assert(body.take(k + 1).drop_last() == body.take(k));
        assert(body[k] == v@[i as int]);
        if c < '0' || c > '9' {
            assert(!is_digit(body[k]));
            return None;
        }
        let d: u64 = (c as u32 - 48) as u64;
        proof {
            lemma_digits_value_grows(body, k + 1);
        }
        if n > u64::MAX / 10 {
            return None;
        }
        let m: u64 = n * 10;
        if d > u64::MAX - m {
            return None;
        }
        n = m + d;
        assert forall|j: int| 0 <= j < k + 1 implies is_digit(#[trigger] body.take(k + 1)[j]) by {
            if j < k {
                assert(body.take(k)[j] == body[j]);
            }
        }
        i += 1;
    }
    assert(body.take(to - start) == body);
    Some(n)
}

/// The decimal digits of a number write that number.
pub proof fn digits_write_their_number(n: nat)
    ensures
        digits(n).len() > 0,
        all_digits(digits(n)),
        digits_value(digits(n)) == n,
    decreases n,
{
    if n < 10 {
        assert(digits(n).drop_last() == Seq::<char>::empty());
        assert(digits_value(digits(n).drop_last()) == 0);
    } else {
        digits_write_their_number(n / 10);
        assert(digits(n).drop_last() == digits(n / 10));
        assert forall|i: int| 0 <= i < digits(n).len() implies is_digit(#[trigger] digits(n)[i]) by {
            if i < digits(n / 10).len() {
                assert(digits(n)[i] == digits(n / 10)[i]);
            }
        }
    }
}

/// Each further decimal digit counts ten times less: behind a number, a digit adds its value to ten
/// times that number.
pub proof fn digits_count_by_place(s: Seq<char>, d: char)
    requires
        '0' <= d <= '9',
    ensures
        digits_value(Seq::empty()) == 0,
        digits_value(s.push(d)) == 10 * digits_value(s) + (d as int - '0' as int),
{
    assert(s.push(d).drop_last() == s);
}

/// A number is written without needless zeros in front.
pub proof fn digits_begin_with_no_zero(n: nat)
    ensures
        n > 0 ==> digits(n)[0] != '0',
        n == 0 ==> digits(n) == seq!['0'],
    decreases n,
{
    if n >= 10 {
        digits_begin_with_no_zero(n / 10);
        digits_write_their_number(n / 10);
        assert(digits(n)[0] == digits(n / 10)[0]);
    }
}

/// A number may have a plus sign in front, but a text with anything else than digits behind that is
/// none, nor is one without digits.
pub proof fn numbers_are_digits(s: Seq<char>)
    ensures
        s.len() > 0 && s[0] != '+' ==> parsed_u64(seq!['+'] + s) == parsed_u64(s),
        s.len() == 0 ==> parsed_u64(s) is None && parsed_u64(seq!['+'] + s) is None,
        (exists|i: int| 1 <= i < s.len() && !('0' <= #[trigger] s[i] <= '9')) ==> parsed_u64(s)
            is None,
        s.len() > 0 && !('0' <= s[0] <= '9') && s[0] != '+' ==> parsed_u64(s) is None,
        parsed_u64(s) matches Some(n) ==> n == digits_value(
            if s[0] == '+' {
                s.skip(1)
            } else {
                s
            },
        ),
{
    assert((seq!['+'] + s).skip(1) == s);
    if exists|i: int| 1 <= i < s.len() && !('0' <= #[trigger] s[i] <= '9') {
        let i = choose|i: int| 1 <= i < s.len() && !('0' <= #[trigger] s[i] <= '9');
        if s[0] == '+' {
            assert(!is_digit(unsigned_part(s)[i - 1]));
        } else {
            assert(!is_digit(unsigned_part(s)[i]));
        }
    }
    if s.len() > 0 && !('0' <= s[0] <= '9') && s[0] != '+' {
        assert(!is_digit(unsigned_part(s)[0]));
    }
}

/// Reading back the decimal digits of a 64-bit number gives that number.
pub proof fn decimal_round_trip(n: u64)
    ensures
        parsed_u64(digits(n as nat)) == Some(n),
{
    digits_write_their_number(n as nat);
    assert(is_digit(digits(n as nat)[0]));
}

/// `n` spaces.
pub open spec fn spaces(n: nat) -> Seq<char> {
    Seq::new(n, |i: int| ' ')
}

/// `s` with spaces behind it, `width` characters wide where `s` is not wider.
pub open spec fn left_aligned(s: Seq<char>, width: nat) -> Seq<char> {
    if s.len() < width {
        s + spaces((width - s.len()) as nat)
    } else {
        s
    }
}

/// `s` with spaces before it, `width` characters wide where `s` is not wider.
pub open spec fn right_aligned(s: Seq<char>, width: nat) -> Seq<char> {
    if s.len() < width {
        spaces((width - s.len()) as nat) + s
    } else {
        s
    }
}

/// Padding keeps the text whole, at the side it is aligned to, and adds spaces up to the width and no
/// further.
pub proof fn padding_keeps_the_text(s: Seq<char>, width: nat)
    ensures
        ({
            let l = left_aligned(s, width);
            let r = right_aligned(s, width);
            &&& l.len() == r.len()
            &&& s.len() >= width ==> l == s && r == s
            &&& s.len() < width ==> l.len() == width
            &&& l.take(s.len() as int) == s
            &&& r.skip(r.len() - s.len()) == s
            &&& forall|i: int| s.len() <= i < l.len() ==> #[trigger] l[i] == ' '
            &&& forall|i: int| 0 <= i < r.len() - s.len() ==> #[trigger] r[i] == ' '
        }),
{
    assert(left_aligned(s, width).take(s.len() as int) == s);
    assert(right_aligned(s, width).skip(right_aligned(s, width).len() - s.len()) == s);
}

/// Appends spaces until `n` have been added.
fn push_spaces(s: &mut String, n: usize)
    ensures
        final(s)@ == old(s)@ + spaces(n as nat),
{
    let ghost before = s@;
    let mut i: usize = 0;
    while i < n
        invariant
            i <= n,
            s@ == before + spaces(i as nat),
        decreases n - i,
    {
        s.push(' ');
        i += 1;
    }
}

/// Appends `t`, with spaces behind it up to `width` characters.
pub(crate) fn push_left_aligned(s: &mut String, t: &str, width: usize)
    ensures
        final(s)@ == old(s)@ + left_aligned(t@, width as nat),
{
    let n: usize = t.unicode_len();
    s.append(t);
    if n < width {
        push_spaces(s, width - n);
    }
}

/// Appends `t`, with spaces before it up to `width` characters.
pub(crate) fn push_right_aligned(s: &mut String, t: &str, width: usize)
    ensures
        final(s)@ == old(s)@ + right_aligned(t@, width as nat),
{
    let n: usize = t.unicode_len();
    if n < width {
        push_spaces(s, width - n);
    }
    s.append(t);
}

/// Whether `c` is one of `A` to `Z`.
pub open spec fn ascii_upper(c: char) -> bool {
    'A' <= c <= 'Z'
}

/// Whether `c` is one of `a` to `z`, `A` to `Z` and `0` to `9`.
pub open spec fn ascii_alphanumeric(c: char) -> bool {
    is_digit(c) || ascii_upper(c) || 'a' <= c <= 'z'
}

/// Whether `c` is one of `0` to `9`, `a` to `f` and `A` to `F`.
pub open spec fn ascii_hex_digit(c: char) -> bool {
    is_digit(c) || 'a' <= c <= 'f' || 'A' <= c <= 'F'
}

/// `c` with `A` to `Z` made small.
pub open spec fn ascii_lower(c: char) -> char {
    if ascii_upper(c) {
        (c as int + 32) as char
    } else {
        c
    }
}

/// `s` with `A` to `Z` made small.
pub open spec fn ascii_lowercase(s: Seq<char>) -> Seq<char> {
    s.map_values(|c: char| ascii_lower(c))
}

/// Whether no character of `s` is one of `A` to `Z`.
pub open spec fn no_ascii_upper(s: Seq<char>) -> bool {
    forall|i: int| 0 <= i < s.len() ==> !ascii_upper(#[trigger] s[i])
}

/// What `str::to_lowercase` makes of a text.
pub uninterp spec fn lowercase(s: Seq<char>) -> Seq<char>;

/// Calls `str::to_lowercase`, the Unicode lowercase equivalent of a text. It depends on the text
/// alone. Of what it is, this claims that ASCII text changes in `A` to `Z` only, each to its small
/// letter; that no `A` to `Z` is left in any result; and that the case of the ASCII letters in a
/// text makes no difference: each maps to its small letter, and the one mapping that looks at its
/// neighbours, that of the capital sigma, asks only whether they are cased letters, which both
/// cases of an ASCII letter are.
#[verifier::external_body]
pub(crate) fn to_lowercase(s: &str) -> (r: String)
    ensures
        r@ == lowercase(s@),
        r@ == lowercase(ascii_lowercase(s@)),
        vstd::utf8::is_ascii_chars(s@) ==> r@ == ascii_lowercase(s@),
        no_ascii_upper(r@),
{
    s.to_lowercase()
}

/// The index of the first `c` in `s`, or the length of `s` where there is none.
pub open spec fn find(s: Seq<char>, c: char) -> int
    decreases s.len(),
{
    if s.len() == 0 || s[0] == c {
        0
    } else {
        1 + find(s.skip(1), c)
    }
}

/// `find` stays inside the text, stops at the character it looks for, and passes no earlier one.
pub(crate) proof fn lemma_find(s: Seq<char>, c: char)
    ensures
        0 <= find(s, c) <= s.len(),
        find(s, c) < s.len() ==> s[find(s, c)] == c,
        forall|i: int| 0 <= i < find(s, c) ==> s[i] != c,
    decreases s.len(),
{
    if s.len() != 0 && s[0] != c {
        let t = s.skip(1);
        lemma_find(t, c);
        assert forall|i: int| 0 <= i < find(s, c) implies s[i] != c by {
            if i > 0 {
                assert(t[i - 1] == s[i]);
            }
        }
    }
}

/// The one index with what `lemma_find` says is what `find` gives.
pub(crate) proof fn lemma_find_is(s: Seq<char>, c: char, k: int)
    requires
        0 <= k <= s.len(),
        k < s.len() ==> s[k] == c,
        forall|i: int| 0 <= i < k ==> s[i] != c,
    ensures
        find(s, c) == k,
{
    lemma_find(s, c);
    let f = find(s, c);
    if f < k {
        assert(s[f] != c);
    }
    if k < f {
        assert(s[k] != c);
    }
}

/// The index of the first `c` among the characters of `v` from `from` up to `to`, or `to`.
pub(crate) fn find_char(v: &Vec<char>, from: usize, to: usize, c: char) -> (r: usize)
    requires
        from <= to <= v@.len(),
    ensures
        from <= r <= to,
        r - from == find(v@.subrange(from as int, to as int), c),
{
    let ghost s = v@.subrange(from as int, to as int);
    let mut i: usize = from;
    while i < to && v[i] != c
        invariant
            from <= i <= to <= v@.len(),
            s == v@.subrange(from as int, to as int),
            forall|j: int| 0 <= j < i - from ==> s[j] != c,
        decreases to - i,
    {
        i += 1;
    }
    proof {
        lemma_find_is(s, c, i - from);
    }
    i
}

/// The part of `s` before the first `c`, or all of it.
pub open spec fn before(s: Seq<char>, c: char) -> Seq<char> {
    s.take(find(s, c))
}

/// `s` without the carriage return it ends with, if it does.
pub open spec fn without_cr(s: Seq<char>) -> Seq<char> {
    if s.len() > 0 && s.last() == '\r' {
        s.drop_last()
    } else {
        s
    }
}

/// The lines of a text. A line ends at a line feed, with or without a carriage return before it;
/// the last line may lack its end.
pub open spec fn lines(s: Seq<char>) -> Seq<Seq<char>>
    decreases s.len(),
{
    let n = find(s, '\n');
    if s.len() == 0 || n < 0 {
        Seq::empty()
    } else if n >= s.len() {
        seq![s]
    } else {
        seq![without_cr(s.take(n))] + lines(s.skip(n + 1))
    }
}

} // verus!
