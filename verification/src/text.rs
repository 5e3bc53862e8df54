//! Text primitives: decimal rendering and parsing, trimming, splitting,
//! searching and ordering of character sequences.
//!
//! Strings are modelled by their characters (`s@: Seq<char>`), so every
//! contract here is a statement about `Seq<char>`.

use vstd::prelude::*;
use vstd::string::*;

verus! {

/// `String::push` of the standard library: the given character is appended.
pub assume_specification[ String::push ](s: &mut String, c: char)
    ensures
        final(s)@ == old(s)@.push(c),
;

// ---------------------------------------------------------------------------
// Decimal numbers
// ---------------------------------------------------------------------------
/// The character of one decimal digit.
pub open spec fn digit_char(d: nat) -> char {
    (('0' as nat) + d) as char
}

/// The decimal rendering of `n`, without sign or leading zeros.
pub open spec fn decimal(n: nat) -> Seq<char>
    decreases n,
{
    if n < 10 {
        seq![digit_char(n)]
    } else {
        decimal(n / 10).push(digit_char(n % 10))
    }
}

/// Whether `c` is an ASCII decimal digit.
pub open spec fn is_digit(c: char) -> bool {
    '0' <= c && c <= '9'
}

/// The value of an ASCII decimal digit.
pub open spec fn digit_value(c: char) -> nat {
    (c as nat - '0' as nat) as nat
}

/// The number that a sequence of ASCII digits denotes.
pub open spec fn digits_value(s: Seq<char>) -> nat
    decreases s.len(),
{
    if s.len() == 0 {
        0
    } else {
        digits_value(s.drop_last()) * 10 + digit_value(s.last())
    }
}

/// The digits of `s` once one leading plus sign is taken off.
pub open spec fn unsigned_digits(s: Seq<char>) -> Seq<char> {
    if s.len() > 0 && s[0] == '+' {
        s.subrange(1, s.len() as int)
    } else {
        s
    }
}

/// The unsigned number no larger than `max` that `s` spells: an optional plus
/// sign followed by at least one ASCII digit and nothing else.
pub open spec fn parse_unsigned(s: Seq<char>, max: nat) -> Option<nat> {
    let digits = unsigned_digits(s);
    if digits.len() > 0 && (forall|i: int| 0 <= i < digits.len() ==> is_digit(#[trigger] digits[i]))
        && digits_value(digits) <= max {
        Some(digits_value(digits))
    } else {
        None
    }
}

/// The character of a digit below ten.
pub fn digit_to_char(d: u64) -> (c: char)
    requires
        d < 10,
    ensures
        c == digit_char(d as nat),
{
    let code: u8 = 48u8 + d as u8;
    code as char
}

/// Render `n` in decimal.
pub fn decimal_u64(n: u64) -> (s: String)
    ensures
        s@ == decimal(n as nat),
    decreases n,
{
    if n < 10 {
        let mut s = String::new();
        s.push(digit_to_char(n));
        assert(s@ =~= seq![digit_char(n as nat)]);
        s
    } else {
        let mut s = decimal_u64(n / 10);
        s.push(digit_to_char(n % 10));
        s
    }
}

/// Render `n` in decimal.
pub fn decimal_usize(n: usize) -> (s: String)
    ensures
        s@ == decimal(n as nat),
{
    decimal_u64(n as u64)
}

/// The decimal rendering of `n`, with a minus sign where it is negative.
pub open spec fn decimal_int(n: int) -> Seq<char> {
    if n < 0 {
        "-"@ + decimal((-n) as nat)
    } else {
        decimal(n as nat)
    }
}

/// Render `n` in decimal.
pub fn decimal_i64(n: i64) -> (s: String)
    ensures
        s@ == decimal_int(n as int),
{
    if n < 0 {
        let magnitude: u64 = if n == i64::MIN {
            9223372036854775808u64
        } else {
            (-n) as u64
        };
        "-".to_owned().concat(decimal_u64(magnitude).as_str())
    } else {
        decimal_u64(n as u64)
    }
}

/// `true` or `false`.
pub open spec fn bool_text(b: bool) -> Seq<char> {
    if b {
        "true"@
    } else {
        "false"@
    }
}

/// Render a truth value.
pub fn bool_str(b: bool) -> (s: &'static str)
    ensures
        s@ == bool_text(b),
{
    if b {
        "true"
    } else {
        "false"
    }
}

/// The value of a longer digit sequence is at least that of its prefix.
proof fn lemma_digits_value_grows(s: Seq<char>, k: int)
    requires
        0 <= k <= s.len(),
    ensures
        digits_value(s.take(k)) <= digits_value(s),
    decreases s.len(),
{
    if k == s.len() {
        assert(s.take(k) =~= s);
    } else {
        lemma_digits_value_grows(s.drop_last(), k);
        assert(s.drop_last().take(k) =~= s.take(k));
    }
}

/// Parse an unsigned number bounded by `max`.
pub fn parse_u64_bounded(s: &str, max: u64) -> (r: Option<u64>)
    ensures
        r matches Some(n) ==> parse_unsigned(s@, max as nat) == Some(n as nat),
        r is None ==> parse_unsigned(s@, max as nat) is None,
{
    let chars = chars_of(s);
    let mut i: usize = 0;
    if chars.len() > 0 && chars[0] == '+' {
        i = 1;
    }
    let start: usize = i;
    let ghost digits = unsigned_digits(s@);
    assert(digits =~= chars@.subrange(start as int, chars@.len() as int));
    if i == chars.len() {
        return None;
    }
    let mut value: u64 = 0;
    while i < chars.len()
        invariant
            start <= i <= chars.len(),
            digits == chars@.subrange(start as int, chars@.len() as int),
            forall|j: int| 0 <= j < i - start ==> is_digit(#[trigger] digits[j]),
            value == digits_value(digits.take(i - start)),
            value <= max,
            digits == unsigned_digits(s@),
        decreases chars.len() - i,
    {
        let c = chars[i];
        assert(c == digits[i - start]);
        if c < '0' || c > '9' {
            assert(!is_digit(digits[i - start]));
            return None;
        }
        let d: u64 = (c as u32 - 48) as u64;
        let ghost shorter = digits.take(i - start);
        let ghost longer = digits.take(i - start + 1);
        proof {
            assert(longer.drop_last() =~= shorter);
            assert(longer.last() == c);
            assert(digits_value(longer) == digits_value(shorter) * 10 + digit_value(c));
            lemma_digits_value_grows(digits, i - start + 1);
        }
        if d > max || value > max / 10 || value * 10 > max - d {
            assert(digits_value(longer) > max);
            return None;
        }
        value = value * 10 + d;
        i = i + 1;
    }
    assert(digits.take(i - start) =~= digits);
    Some(value)
}

/// Parse an unsigned number that fits in `usize`.
pub fn parse_usize(s: &str) -> (r: Option<usize>)
    ensures
        r matches Some(n) ==> parse_unsigned(s@, usize::MAX as nat) == Some(n as nat),
        r is None ==> parse_unsigned(s@, usize::MAX as nat) is None,
{
    match parse_u64_bounded(s, usize::MAX as u64) {
        Some(n) => Some(n as usize),
        None => None,
    }
}

// ---------------------------------------------------------------------------
// Characters
// ---------------------------------------------------------------------------
/// The characters of a string, as a vector.
pub fn chars_of(s: &str) -> (v: Vec<char>)
    ensures
        v@ == s@,
{
    let mut v: Vec<char> = Vec::new();
    for c in it: s.chars()
        invariant
            v@ == s@.take(it.index()),
            it.seq() == s@,
    {
        assert(s@.take(it.index() + 1) =~= s@.take(it.index()).push(s@[it.index()]));
        v.push(c);
    }
    assert(s@.take(s@.len() as int) =~= s@);
    v
}

/// The string made of the characters `from..to` of `v`.
pub fn string_of(v: &Vec<char>, from: usize, to: usize) -> (s: String)
    requires
        from <= to <= v.len(),
    ensures
        s@ == v@.subrange(from as int, to as int),
{
    let mut s = String::new();
    let mut i: usize = from;
    assert(v@.subrange(from as int, from as int) =~= Seq::<char>::empty());
    while i < to
        invariant
            from <= i <= to <= v.len(),
            s@ == v@.subrange(from as int, i as int),
        decreases to - i,
    {
        s.push(v[i]);
        assert(v@.subrange(from as int, i as int).push(v@[i as int]) =~= v@.subrange(
            from as int,
            i + 1,
        ));
        i = i + 1;
    }
    s
}

/// The characters of an optional string.
pub open spec fn opt_view(s: Option<String>) -> Option<Seq<char>> {
    match s {
        None => None,
        Some(x) => Some(x@),
    }
}

/// A copy of an optional string.
pub fn clone_opt(s: &Option<String>) -> (r: Option<String>)
    ensures
        r == *s,
{
    match s {
        None => None,
        Some(x) => Some(x.clone()),
    }
}

/// Whether two strings hold the same characters.
pub fn same(a: &str, b: &str) -> (r: bool)
    ensures
        r == (a@ == b@),
{
    a.to_owned() == b.to_owned()
}

// ---------------------------------------------------------------------------
// White space, splitting and searching
// ---------------------------------------------------------------------------
/// The characters with the Unicode `White_Space` property.
pub open spec fn is_space(c: char) -> bool {
    ||| '\t' <= c && c <= '\r'
    ||| c == ' '
    ||| c == '\u{85}'
    ||| c == '\u{A0}'
    ||| c == '\u{1680}'
    ||| '\u{2000}' <= c && c <= '\u{200A}'
    ||| c == '\u{2028}'
    ||| c == '\u{2029}'
    ||| c == '\u{202F}'
    ||| c == '\u{205F}'
    ||| c == '\u{3000}'
}

/// Whether `c` is white space.
pub fn space(c: char) -> (r: bool)
    ensures
        r == is_space(c),
{
    ('\t' <= c && c <= '\r') || c == ' ' || c == '\u{85}' || c == '\u{A0}' || c == '\u{1680}' || (
    '\u{2000}' <= c && c <= '\u{200A}') || c == '\u{2028}' || c == '\u{2029}' || c == '\u{202F}' || c
        == '\u{205F}' || c == '\u{3000}'
}

/// `s` without its leading white space.
pub open spec fn trim_start(s: Seq<char>) -> Seq<char>
    decreases s.len(),
{
    if s.len() > 0 && is_space(s[0]) {
        trim_start(s.subrange(1, s.len() as int))
    } else {
        s
    }
}

/// `s` without its trailing white space.
pub open spec fn trim_end(s: Seq<char>) -> Seq<char>
    decreases s.len(),
{
    if s.len() > 0 && is_space(s.last()) {
        trim_end(s.drop_last())
    } else {
        s
    }
}

/// `s` without white space at either end.
pub open spec fn trimmed(s: Seq<char>) -> Seq<char> {
    trim_end(trim_start(s))
}

/// Cut the white space off both ends of `s`.
pub fn trim(s: &str) -> (r: String)
    ensures
        r@ == trimmed(s@),
{
    let v = chars_of(s);
    let mut a: usize = 0;
    assert(v@.subrange(0, v@.len() as int) =~= v@);
    while a < v.len() && space(v[a])
        invariant
            a <= v.len(),
            trim_start(s@) == trim_start(v@.subrange(a as int, v@.len() as int)),
        decreases v.len() - a,
    {
        assert(v@.subrange(a as int, v@.len() as int).subrange(1, v@.len() - a) =~= v@.subrange(
            a + 1,
            v@.len() as int,
        ));
        a = a + 1;
    }
    assert(trim_start(s@) == v@.subrange(a as int, v@.len() as int));
    let mut b: usize = v.len();
    while b > a && space(v[b - 1])
        invariant
            a <= b <= v.len(),
            trimmed(s@) == trim_end(v@.subrange(a as int, b as int)),
        decreases b,
    {
        assert(v@.subrange(a as int, b as int).drop_last() =~= v@.subrange(a as int, b - 1));
        b = b - 1;
    }
    string_of(&v, a, b)
}

/// The position of the first `c` in `s` at or after `from`, or the length of
/// `s` where there is none.
pub open spec fn index_from(s: Seq<char>, c: char, from: int) -> int
    decreases s.len() - from,
{
    if from >= s.len() {
        s.len() as int
    } else if s[from] == c {
        from
    } else {
        index_from(s, c, from + 1)
    }
}

/// What `index_from` finds lies in range, holds `c` where it is a position,
/// and is the first such position.
pub proof fn lemma_index_from(s: Seq<char>, c: char, from: int)
    requires
        0 <= from <= s.len(),
    ensures
        from <= index_from(s, c, from) <= s.len(),
        index_from(s, c, from) < s.len() ==> s[index_from(s, c, from)] == c,
        forall|j: int| from <= j < index_from(s, c, from) ==> #[trigger] s[j] != c,
    decreases s.len() - from,
{
    if from < s.len() && s[from] != c {
        lemma_index_from(s, c, from + 1);
    }
}

/// The pieces of `s` between the occurrences of `sep`, from `from` on. There
/// is always at least one piece.
pub open spec fn split_from(s: Seq<char>, sep: char, from: int) -> Seq<Seq<char>>
    decreases s.len() - from,
    when 0 <= from <= s.len()
    via split_from_decreases
{
    let at = index_from(s, sep, from);
    if at < s.len() {
        seq![s.subrange(from, at)] + split_from(s, sep, at + 1)
    } else {
        seq![s.subrange(from, s.len() as int)]
    }
}

#[via_fn]
proof fn split_from_decreases(s: Seq<char>, sep: char, from: int) {
    lemma_index_from(s, sep, from);
}

/// The pieces of `s` between the occurrences of `sep`.
pub open spec fn split_on(s: Seq<char>, sep: char) -> Seq<Seq<char>> {
    split_from(s, sep, 0)
}

/// The character sequences of a vector of strings.
pub open spec fn views(v: Seq<String>) -> Seq<Seq<char>> {
    Seq::new(v.len(), |i: int| v[i]@)
}

/// Split `s` at every `sep`.
pub fn split(s: &str, sep: char) -> (r: Vec<String>)
    ensures
        views(r@) == split_on(s@, sep),
        r.len() >= 1,
{
    let v = chars_of(s);
    let mut r: Vec<String> = Vec::new();
    let mut from: usize = 0;
    let mut i: usize = 0;
    while i < v.len()
        invariant
            from <= i <= v.len(),
            v@ == s@,
            index_from(s@, sep, from as int) == index_from(s@, sep, i as int),
            views(r@) + split_from(s@, sep, from as int) == split_on(s@, sep),
        decreases v.len() - i,
    {
        if v[i] == sep {
            let piece = string_of(&v, from, i);
            let ghost before = views(r@);
            r.push(piece);
            assert(views(r@) =~= before.push(piece@));
            assert(before.push(piece@) + split_from(s@, sep, i + 1) =~= before + (seq![piece@]
                + split_from(s@, sep, i + 1)));
            from = i + 1;
        }
        i = i + 1;
    }
    let piece = string_of(&v, from, v.len());
    let ghost before = views(r@);
    r.push(piece);
    assert(views(r@) =~= before + seq![piece@]);
    r
}

/// Whether `c` occurs in `s`.
pub fn contains_char(s: &str, c: char) -> (r: bool)
    ensures
        r == s@.contains(c),
{
    let v = chars_of(s);
    let mut i: usize = 0;
    while i < v.len()
        invariant
            i <= v.len(),
            v@ == s@,
            forall|j: int| 0 <= j < i ==> #[trigger] s@[j] != c,
        decreases v.len() - i,
    {
        if v[i] == c {
            assert(s@[i as int] == c);
            return true;
        }
        i = i + 1;
    }
    false
}

// ---------------------------------------------------------------------------
// Order
// ---------------------------------------------------------------------------
/// The lexicographic order of character sequences by code point, which is the
/// order of the strings' UTF-8 bytes.
pub open spec fn lex_le(a: Seq<char>, b: Seq<char>) -> bool
    decreases a.len(),
{
    if a.len() == 0 {
        true
    } else if b.len() == 0 {
        false
    } else if a[0] == b[0] {
        lex_le(a.subrange(1, a.len() as int), b.subrange(1, b.len() as int))
    } else {
        a[0] < b[0]
    }
}

pub proof fn lemma_lex_le_total(a: Seq<char>, b: Seq<char>)
    ensures
        lex_le(a, b) || lex_le(b, a),
    decreases a.len(),
{
    if a.len() > 0 && b.len() > 0 && a[0] == b[0] {
        lemma_lex_le_total(a.subrange(1, a.len() as int), b.subrange(1, b.len() as int));
    }
}

pub proof fn lemma_lex_le_transitive(a: Seq<char>, b: Seq<char>, c: Seq<char>)
    requires
        lex_le(a, b),
        lex_le(b, c),
    ensures
        lex_le(a, c),
    decreases a.len(),
{
    if a.len() > 0 && b.len() > 0 && c.len() > 0 && a[0] == b[0] && b[0] == c[0] {
        lemma_lex_le_transitive(
            a.subrange(1, a.len() as int),
            b.subrange(1, b.len() as int),
            c.subrange(1, c.len() as int),
        );
    }
}

pub proof fn lemma_lex_le_antisymmetric(a: Seq<char>, b: Seq<char>)
    requires
        lex_le(a, b),
        lex_le(b, a),
    ensures
        a == b,
    decreases a.len(),
{
    if a.len() > 0 && b.len() > 0 {
        lemma_lex_le_antisymmetric(a.subrange(1, a.len() as int), b.subrange(1, b.len() as int));
        assert(a =~= seq![a[0]] + a.subrange(1, a.len() as int));
        assert(b =~= seq![b[0]] + b.subrange(1, b.len() as int));
    } else {
        assert(a =~= b);
    }
}

/// Whether `a` comes no later than `b`.
pub fn lex_not_after(a: &str, b: &str) -> (r: bool)
    ensures
        r == lex_le(a@, b@),
{
    let x = chars_of(a);
    let y = chars_of(b);
    let mut i: usize = 0;
    assert(x@.subrange(0, x@.len() as int) =~= x@);
    assert(y@.subrange(0, y@.len() as int) =~= y@);
    while i < x.len() && i < y.len() && x[i] == y[i]
        invariant
            i <= x.len(),
            i <= y.len(),
            lex_le(a@, b@) == lex_le(
                x@.subrange(i as int, x@.len() as int),
                y@.subrange(i as int, y@.len() as int),
            ),
        decreases x.len() - i,
    {
        assert(x@.subrange(i as int, x@.len() as int).subrange(1, x@.len() - i) =~= x@.subrange(
            i + 1,
            x@.len() as int,
        ));
        assert(y@.subrange(i as int, y@.len() as int).subrange(1, y@.len() - i) =~= y@.subrange(
            i + 1,
            y@.len() as int,
        ));
        i = i + 1;
    }
    if i == x.len() {
        true
    } else if i == y.len() {
        false
    } else {
        x[i] < y[i]
    }
}

/// Whether every string comes no later than the ones behind it.
pub open spec fn sorted(s: Seq<Seq<char>>) -> bool {
    forall|i: int, j: int| 0 <= i < j < s.len() ==> lex_le(#[trigger] s[i], #[trigger] s[j])
}

/// Sort strings into ascending order.
pub fn sort(v: Vec<String>) -> (r: Vec<String>)
    ensures
        sorted(views(r@)),
        views(r@).to_multiset() == views(v@).to_multiset(),
        r.len() == v.len(),
{
    let mut r: Vec<String> = Vec::new();
    let mut i: usize = 0;
    assert(views(v@).take(0) =~= views(r@));
    while i < v.len()
        invariant
            i <= v.len(),
            sorted(views(r@)),
            r.len() == i,
            views(r@).to_multiset() == views(v@).take(i as int).to_multiset(),
        decreases v.len() - i,
    {
        let mut at: usize = r.len();
        while at > 0 && !lex_not_after(r[at - 1].as_str(), v[i].as_str())
            invariant
                i < v.len(),
                at <= r.len(),
                forall|j: int| at <= j < r.len() ==> lex_le(v@[i as int]@, #[trigger] views(r@)[j]),
            decreases at,
        {
            proof {
                lemma_lex_le_total(r@[at - 1]@, v@[i as int]@);
            }
            at = at - 1;
        }
        let ghost before = views(r@);
        let item = v[i].clone();
        r.insert(at, item);
        assert(views(r@) =~= before.insert(at as int, item@));
        proof {
            vstd::seq_lib::to_multiset_insert(before, at as int, item@);
            assert(views(v@).take(i + 1) =~= views(v@).take(i as int).push(item@));
            vstd::seq_lib::to_multiset_build(views(v@).take(i as int), item@);
            assert forall|a: int, b: int| 0 <= a < b < views(r@).len() implies lex_le(
                #[trigger] views(r@)[a],
                #[trigger] views(r@)[b],
            ) by {
                if a < at && b == at {
                    if a < at - 1 {
                        lemma_lex_le_transitive(before[a], before[at - 1], item@);
                    }
                } else if a < at && b > at {
                    assert(views(r@)[b] == before[b - 1]);
                } else if a == at {
                    assert(views(r@)[b] == before[b - 1]);
                } else if a > at {
                    assert(views(r@)[a] == before[a - 1]);
                    assert(views(r@)[b] == before[b - 1]);
                }
            }
        }
        i = i + 1;
    }
    assert(views(v@).take(v@.len() as int) =~= views(v@));
    r
}

/// Whether a list holds a string.
pub fn lists(v: &Vec<String>, s: &str) -> (r: bool)
    ensures
        r == views(v@).contains(s@),
{
    let mut i: usize = 0;
    while i < v.len()
        invariant
            i <= v@.len(),
            forall|j: int| 0 <= j < i ==> #[trigger] views(v@)[j] != s@,
        decreases v@.len() - i,
    {
        if same(v[i].as_str(), s) {
            assert(views(v@)[i as int] == s@);
            return true;
        }
        i = i + 1;
    }
    false
}

/// Whether a string holds no character.
pub fn blank(s: &str) -> (r: bool)
    ensures
        r == (s@.len() == 0),
{
    chars_of(s).len() == 0
}

/// Strings, with a separator between them.
pub open spec fn join_text(items: Seq<Seq<char>>, sep: Seq<char>) -> Seq<char>
    decreases items.len(),
{
    if items.len() == 0 {
        Seq::empty()
    } else if items.len() == 1 {
        items[0]
    } else {
        join_text(items.drop_last(), sep) + sep + items.last()
    }
}

/// Join strings with a separator.
pub fn join(items: &Vec<String>, sep: &str) -> (r: String)
    ensures
        r@ == join_text(views(items@), sep@),
{
    let ghost all = views(items@);
    let mut r = String::new();
    let mut i: usize = 0;
    assert(all.take(0) =~= Seq::<Seq<char>>::empty());
    assert(r@ =~= join_text(all.take(0), sep@));
    while i < items.len()
        invariant
            i <= items@.len(),
            all == views(items@),
            r@ == join_text(all.take(i as int), sep@),
        decreases items@.len() - i,
    {
        proof {
            assert(all.take(i + 1).drop_last() =~= all.take(i as int));
            assert(all.take(i + 1).last() == items@[i as int]@);
        }
        r = if i == 0 {
            items[i].clone()
        } else {
            r.concat(sep).concat(items[i].as_str())
        };
        i = i + 1;
    }
    assert(all.take(i as int) =~= all);
    r
}

// ---------------------------------------------------------------------------
// Quoted strings
// ---------------------------------------------------------------------------
/// What `{:?}` prints of a string.
pub uninterp spec fn debug_str(s: Seq<char>) -> Seq<char>;

/// `format!` with the `Debug` of a `str`: the string in double quotes. Which
/// characters std escapes is not stated.
#[verifier::external_body]
pub(crate) fn string_debug(s: &str) -> (r: String)
    ensures
        r@ == debug_str(s@),
{
    format!("{:?}", s)
}

/// Quoted strings, separated by commas.
pub open spec fn quoted(items: Seq<Seq<char>>) -> Seq<char>
    decreases items.len(),
{
    if items.len() == 0 {
        Seq::empty()
    } else if items.len() == 1 {
        debug_str(items[0])
    } else {
        quoted(items.drop_last()) + ", "@ + debug_str(items.last())
    }
}

/// A list of quoted strings.
pub open spec fn debug_list(items: Seq<Seq<char>>) -> Seq<char> {
    "["@ + quoted(items) + "]"@
}

/// Render a list of quoted strings.
pub fn list_debug(items: &Vec<String>) -> (r: String)
    ensures
        r@ == debug_list(views(items@)),
{
    let ghost all = views(items@);
    let mut r = String::new();
    let mut i: usize = 0;
    assert(all.take(0) =~= Seq::<Seq<char>>::empty());
    assert(r@ =~= quoted(all.take(0)));
    while i < items.len()
        invariant
            i <= items@.len(),
            all == views(items@),
            r@ == quoted(all.take(i as int)),
        decreases items@.len() - i,
    {
        proof {
            assert(all.take(i + 1).drop_last() =~= all.take(i as int));
            assert(all.take(i + 1).last() == items@[i as int]@);
        }
        let item = string_debug(items[i].as_str());
        r = if i == 0 {
            item
        } else {
            r.concat(", ").concat(item.as_str())
        };
        i = i + 1;
    }
    assert(all.take(i as int) =~= all);
    "[".to_owned().concat(r.as_str()).concat("]")
}

// ---------------------------------------------------------------------------
// Laws
// ---------------------------------------------------------------------------
/// Pieces end to end, with `sep` behind each but the last.
pub open spec fn joined_by(pieces: Seq<Seq<char>>, sep: Seq<char>) -> Seq<char> {
    Seq::new(
        pieces.len(),
        |i: int|
            if i + 1 < pieces.len() {
                pieces[i] + sep
            } else {
                pieces[i]
            },
    ).flatten()
}

/// Joining starts with the first piece.
pub proof fn lemma_joined_by_first(pieces: Seq<Seq<char>>, sep: Seq<char>)
    requires
        pieces.len() > 0,
    ensures
        pieces.len() == 1 ==> joined_by(pieces, sep) == pieces[0],
        pieces.len() > 1 ==> joined_by(pieces, sep) == pieces[0] + sep + joined_by(
            pieces.drop_first(),
            sep,
        ),
{
    let whole = Seq::new(
        pieces.len(),
        |i: int|
            if i + 1 < pieces.len() {
                pieces[i] + sep
            } else {
                pieces[i]
            },
    );
    let tail = pieces.drop_first();
    let rest = Seq::new(
        tail.len(),
        |i: int|
            if i + 1 < tail.len() {
                tail[i] + sep
            } else {
                tail[i]
            },
    );
    assert(whole.drop_first() =~= rest);
    if pieces.len() == 1 {
        assert(whole.drop_first().flatten() =~= Seq::<char>::empty());
        assert(joined_by(pieces, sep) =~= pieces[0]);
    }
}

proof fn lemma_join_text_first(items: Seq<Seq<char>>, sep: Seq<char>)
    requires
        items.len() > 1,
    ensures
        join_text(items, sep) == items[0] + sep + join_text(items.drop_first(), sep),
    decreases items.len(),
{
    if items.len() == 2 {
        reveal_with_fuel(join_text, 2);
        assert(items.drop_last()[0] == items[0]);
        assert(items.drop_first()[0] == items[1]);
        assert(join_text(items, sep) =~= items[0] + sep + join_text(items.drop_first(), sep));
    } else {
        lemma_join_text_first(items.drop_last(), sep);
        assert(items.drop_last().drop_first() =~= items.drop_first().drop_last());
        assert(items.drop_last()[0] == items[0]);
        assert(items.drop_first().last() == items.last());
        assert(join_text(items, sep) =~= items[0] + sep + join_text(items.drop_first(), sep));
    }
}

/// Joined strings stand end to end, with the separator between them and
/// nowhere else.
pub proof fn a_join_holds_every_item(items: Seq<Seq<char>>, sep: Seq<char>)
    ensures
        join_text(items, sep) == joined_by(items, sep),
    decreases items.len(),
{
    if items.len() == 0 {
        assert(joined_by(items, sep) =~= Seq::<char>::empty());
    } else {
        lemma_joined_by_first(items, sep);
        if items.len() > 1 {
            lemma_join_text_first(items, sep);
            a_join_holds_every_item(items.drop_first(), sep);
        }
    }
}

/// The first occurrence is where the text holds the character for the first
/// time.
pub proof fn lemma_index_from_is(s: Seq<char>, c: char, from: int, at: int)
    requires
        0 <= from <= at <= s.len(),
        forall|j: int| from <= j < at ==> #[trigger] s[j] != c,
        at < s.len() ==> s[at] == c,
    ensures
        index_from(s, c, from) == at,
    decreases at - from,
{
    if from < at {
        lemma_index_from_is(s, c, from + 1, at);
    }
}

proof fn lemma_split_from(s: Seq<char>, sep: char, from: int, pieces: Seq<Seq<char>>)
    requires
        0 <= from <= s.len(),
        pieces.len() > 0,
        forall|i: int| 0 <= i < pieces.len() ==> !(#[trigger] pieces[i]).contains(sep),
        s.skip(from) == joined_by(pieces, seq![sep]),
    ensures
        split_from(s, sep, from) == pieces,
    decreases pieces.len(),
{
    lemma_joined_by_first(pieces, seq![sep]);
    let left = s.skip(from);
    let at = from + pieces[0].len();
    if pieces.len() > 1 {
        let tail = joined_by(pieces.drop_first(), seq![sep]);
        let head = pieces[0] + seq![sep];
        assert(left == head + tail);
        assert(left.len() == head.len() + tail.len());
        assert(head.len() == pieces[0].len() + 1);
        assert(left[at - from] == head[at - from]);
    } else {
        assert(left == pieces[0]);
    }
    assert(s.len() == from + left.len());
    assert forall|j: int| from <= j < at implies #[trigger] s[j] != sep by {
        assert(s[j] == left[j - from]);
        assert(left[j - from] == pieces[0][j - from]);
        assert(pieces[0].contains(pieces[0][j - from]));
    }
    if pieces.len() == 1 {
        lemma_index_from_is(s, sep, from, at);
        assert(s.subrange(from, s.len() as int) =~= pieces[0]);
        assert(split_from(s, sep, from) =~= pieces);
    } else {
        assert(s[at] == left[at - from]);
        lemma_index_from_is(s, sep, from, at);
        let tail = joined_by(pieces.drop_first(), seq![sep]);
        assert forall|j: int| 0 <= j < tail.len() implies s.skip(at + 1)[j] == tail[j] by {
            assert(left[at - from + 1 + j] == tail[j]);
        }
        assert(s.skip(at + 1) =~= tail);
        assert forall|i: int| 0 <= i < pieces.drop_first().len() implies !(
        #[trigger] pieces.drop_first()[i]).contains(sep) by {
            assert(pieces.drop_first()[i] == pieces[i + 1]);
        }
        lemma_split_from(s, sep, at + 1, pieces.drop_first());
        assert(s.subrange(from, at) =~= pieces[0]);
        assert(split_from(s, sep, from) =~= pieces);
    }
}

/// Splitting finds the pieces that a text was put together from, as long as
/// none of them holds the separator.
pub proof fn splitting_undoes_joining(pieces: Seq<Seq<char>>, sep: char)
    requires
        pieces.len() > 0,
        forall|i: int| 0 <= i < pieces.len() ==> !(#[trigger] pieces[i]).contains(sep),
    ensures
        split_on(joined_by(pieces, seq![sep]), sep) == pieces,
{
    let s = joined_by(pieces, seq![sep]);
    assert(s.skip(0) =~= s);
    lemma_split_from(s, sep, 0, pieces);
}

proof fn lemma_split_parts(s: Seq<char>, sep: char, from: int)
    requires
        0 <= from <= s.len(),
    ensures
        split_from(s, sep, from).len() > 0,
        forall|i: int|
            0 <= i < split_from(s, sep, from).len() ==> !(#[trigger] split_from(
                s,
                sep,
                from,
            )[i]).contains(sep),
        joined_by(split_from(s, sep, from), seq![sep]) == s.skip(from),
    decreases s.len() - from,
{
    let pieces = split_from(s, sep, from);
    let at = index_from(s, sep, from);
    lemma_index_from(s, sep, from);
    assert(!s.subrange(from, at).contains(sep));
    if at < s.len() {
        lemma_split_parts(s, sep, at + 1);
        assert(pieces.drop_first() =~= split_from(s, sep, at + 1));
        assert forall|i: int| 0 <= i < pieces.len() implies !(#[trigger] pieces[i]).contains(
            sep,
        ) by {
            if i > 0 {
                assert(pieces[i] == split_from(s, sep, at + 1)[i - 1]);
            }
        }
        lemma_joined_by_first(pieces, seq![sep]);
        assert(s.skip(from) =~= s.subrange(from, at) + seq![sep] + s.skip(at + 1));
    } else {
        lemma_joined_by_first(pieces, seq![sep]);
        assert(s.subrange(from, s.len() as int) =~= s.skip(from));
    }
}

/// The pieces of a text hold no separator, and end to end, with the separator
/// between them, they are the text.
pub proof fn pieces_make_up_the_text(s: Seq<char>, sep: char)
    ensures
        split_on(s, sep).len() > 0,
        forall|i: int|
            0 <= i < split_on(s, sep).len() ==> !(#[trigger] split_on(s, sep)[i]).contains(sep),
        joined_by(split_on(s, sep), seq![sep]) == s,
{
    lemma_split_parts(s, sep, 0);
    assert(s.skip(0) =~= s);
}

proof fn lemma_trim_start(s: Seq<char>) -> (a: int)
    ensures
        0 <= a <= s.len(),
        trim_start(s) == s.skip(a),
        forall|i: int| 0 <= i < a ==> is_space(#[trigger] s[i]),
        a < s.len() ==> !is_space(s[a]),
    decreases s.len(),
{
    if s.len() > 0 && is_space(s[0]) {
        let t = s.subrange(1, s.len() as int);
        let a = lemma_trim_start(t);
        assert(t.skip(a) =~= s.skip(a + 1));
        assert forall|i: int| 0 <= i < a + 1 implies is_space(#[trigger] s[i]) by {
            if i > 0 {
                assert(s[i] == t[i - 1]);
            }
        }
        a + 1
    } else {
        assert(s.skip(0) =~= s);
        0
    }
}

proof fn lemma_trim_end(s: Seq<char>) -> (b: int)
    ensures
        0 <= b <= s.len(),
        trim_end(s) == s.take(b),
        forall|i: int| b <= i < s.len() ==> is_space(#[trigger] s[i]),
        b > 0 ==> !is_space(s[b - 1]),
    decreases s.len(),
{
    if s.len() > 0 && is_space(s.last()) {
        let t = s.drop_last();
        let b = lemma_trim_end(t);
        assert(t.take(b) =~= s.take(b));
        assert forall|i: int| b <= i < s.len() implies is_space(#[trigger] s[i]) by {
            if i < t.len() {
                assert(s[i] == t[i]);
            }
        }
        b
    } else {
        assert(s.take(s.len() as int) =~= s);
        s.len() as int
    }
}

/// Trimming takes white space off the ends and nothing else: what is left is a
/// part of the text with white space alone before and behind it, and neither
/// starts nor ends with white space.
pub proof fn trimming_takes_white_space_off_the_ends(s: Seq<char>)
    ensures
        exists|a: int, b: int|
            0 <= a <= b <= s.len() && trimmed(s) == #[trigger] s.subrange(a, b) && (forall|i: int|
                0 <= i < s.len() && !(a <= i < b) ==> is_space(#[trigger] s[i])),
        trimmed(s).len() > 0 ==> !is_space(trimmed(s)[0]) && !is_space(trimmed(s).last()),
{
    let a = lemma_trim_start(s);
    let t = s.skip(a);
    let n = lemma_trim_end(t);
    assert(t.take(n) =~= s.subrange(a, a + n));
    assert forall|i: int| 0 <= i < s.len() && !(a <= i < a + n) implies is_space(
        #[trigger] s[i],
    ) by {
        if i >= a {
            assert(s[i] == t[i - a]);
        }
    }
    if n > 0 {
        assert(t[n - 1] == s[a + n - 1]);
        assert(t[0] == s[a]);
    }
}

/// The order of texts: one comes strictly before another exactly if it is the
/// shorter one where they agree as far as both go, or else has the lesser
/// character where they first differ.
pub proof fn texts_are_ordered_by_their_first_difference(a: Seq<char>, b: Seq<char>)
    ensures
        lex_le(a, b) <==> a.is_prefix_of(b) || exists|i: int|
            0 <= i < a.len() && i < b.len() && a.take(i) == b.take(i) && #[trigger] a[i] < b[i],
    decreases a.len(),
{
    let differs = exists|i: int|
        0 <= i < a.len() && i < b.len() && a.take(i) == b.take(i) && #[trigger] a[i] < b[i];
    if a.len() == 0 {
        assert(a =~= b.subrange(0, 0));
    } else if b.len() > 0 {
        if a[0] == b[0] {
            let x = a.subrange(1, a.len() as int);
            let y = b.subrange(1, b.len() as int);
            texts_are_ordered_by_their_first_difference(x, y);
            if x.is_prefix_of(y) {
                assert(a =~= b.subrange(0, a.len() as int)) by {
                    assert forall|i: int| 0 <= i < a.len() implies a[i] == b[i] by {
                        if i > 0 {
                            assert(x[i - 1] == y.subrange(0, x.len() as int)[i - 1]);
                        }
                    }
                }
            } else if a.is_prefix_of(b) {
                assert(x =~= y.subrange(0, x.len() as int)) by {
                    assert forall|i: int| 0 <= i < x.len() implies x[i] == y[i] by {
                        assert(a[i + 1] == b.subrange(0, a.len() as int)[i + 1]);
                    }
                }
            }
            if lex_le(x, y) && !x.is_prefix_of(y) {
                let i = choose|i: int|
                    0 <= i < x.len() && i < y.len() && x.take(i) == y.take(i) && #[trigger] x[i]
                        < y[i];
                assert(a.take(i + 1) =~= b.take(i + 1)) by {
                    assert forall|j: int| 0 <= j < i + 1 implies a[j] == b[j] by {
                        if j > 0 {
                            assert(x.take(i)[j - 1] == y.take(i)[j - 1]);
                        }
                    }
                }
                assert(a[i + 1] < b[i + 1]);
            }
            if differs {
                let i = choose|i: int|
                    0 <= i < a.len() && i < b.len() && a.take(i) == b.take(i) && #[trigger] a[i]
                        < b[i];
                assert(x.take(i - 1) =~= y.take(i - 1)) by {
                    assert forall|j: int| 0 <= j < i - 1 implies x[j] == y[j] by {
                        assert(a.take(i)[j + 1] == b.take(i)[j + 1]);
                    }
                }
                assert(x[i - 1] < y[i - 1]);
            }
        } else {
            if a.is_prefix_of(b) {
                assert(a[0] == b.subrange(0, a.len() as int)[0]);
            }
            if a[0] < b[0] {
                assert(a.take(0) =~= b.take(0));
            }
            if differs {
                let i = choose|i: int|
                    0 <= i < a.len() && i < b.len() && a.take(i) == b.take(i) && #[trigger] a[i]
                        < b[i];
                if i > 0 {
                    assert(a.take(i)[0] == b.take(i)[0]);
                }
            }
        }
    }
}

/// A number's decimal rendering holds digits alone, has no leading zero unless
/// the number is zero, and denotes the number.
pub proof fn decimals_denote_their_number(n: nat)
    ensures
        decimal(n).len() > 0,
        forall|i: int|
            0 <= i < decimal(n).len() ==> '0' <= #[trigger] decimal(n)[i] && decimal(n)[i] <= '9',
        n > 0 ==> decimal(n)[0] != '0',
        n < 10 ==> decimal(n).len() == 1,
        digits_value(decimal(n)) == n,
    decreases n,
{
    if n >= 10 {
        decimals_denote_their_number(n / 10);
        assert(decimal(n).drop_last() =~= decimal(n / 10));
        assert(decimal(n)[0] == decimal(n / 10)[0]);
        assert forall|i: int| 0 <= i < decimal(n).len() implies '0' <= #[trigger] decimal(n)[i]
            && decimal(n)[i] <= '9' by {
            if i < decimal(n / 10).len() {
                assert(decimal(n)[i] == decimal(n / 10)[i]);
            }
        }
        assert(digit_value(digit_char(n % 10)) == n % 10);
        assert(digits_value(decimal(n)) == (n / 10) * 10 + n % 10);
    } else {
        reveal_with_fuel(digits_value, 2);
        assert(decimal(n).drop_last() =~= Seq::<char>::empty());
        assert(digit_value(digit_char(n)) == n);
    }
}

/// Digits denote a number place by place: each place counts ten times the one
/// behind it, and a digit counts as far as it stands from zero.
pub proof fn digits_count_by_their_place(s: Seq<char>, i: int)
    requires
        0 <= i <= s.len(),
    ensures
        digits_value(s) == digits_value(s.take(i)) * vstd::arithmetic::power::pow(
            10,
            (s.len() - i) as nat,
        ) + digits_value(s.skip(i)),
        s.len() == 1 && '0' <= s[0] && s[0] <= '9' ==> digits_value(s) == s[0] as int - '0' as int,
        s.len() == 0 ==> digits_value(s) == 0,
    decreases s.len() - i,
{
    if s.len() == 1 {
        reveal_with_fuel(digits_value, 2);
        assert(s.drop_last() =~= Seq::<char>::empty());
    }
    if i == s.len() {
        assert(s.take(i) =~= s);
        assert(s.skip(i) =~= Seq::<char>::empty());
        vstd::arithmetic::power::lemma_pow0(10);
    } else {
        let t = s.drop_last();
        let p = vstd::arithmetic::power::pow(10, (t.len() - i) as nat);
        digits_count_by_their_place(t, i);
        assert(t.take(i) =~= s.take(i));
        assert(s.skip(i).drop_last() =~= t.skip(i));
        assert(s.skip(i).last() == s.last());
        reveal(vstd::arithmetic::power::pow);
        assert(vstd::arithmetic::power::pow(10, (s.len() - i) as nat) == 10 * p);
        let v = digits_value(s.take(i)) as int;
        assert((v * p) * 10 == v * (10 * p)) by (nonlinear_arith);
    }
}

/// A number's decimal rendering is read back as the number, exactly where it is
/// no larger than the bound.
pub proof fn decimals_are_read_back(n: nat, max: nat)
    ensures
        parse_unsigned(decimal(n), max) == if n <= max {
            Some(n)
        } else {
            None
        },
{
    decimals_denote_their_number(n);
    assert(decimal(n)[0] != '+');
}

/// Whether a text stands somewhere in another, in one piece.
pub open spec fn part_of(x: Seq<char>, s: Seq<char>) -> bool {
    exists|a: int| 0 <= a && a + x.len() <= s.len() && #[trigger] s.subrange(a, a + x.len()) == x
}

proof fn lemma_part_at(x: Seq<char>, s: Seq<char>, a: int)
    requires
        0 <= a && a + x.len() <= s.len(),
        s.subrange(a, a + x.len()) == x,
    ensures
        part_of(x, s),
{
}

pub proof fn lemma_part_between(before: Seq<char>, x: Seq<char>, behind: Seq<char>)
    ensures
        part_of(x, before + x + behind),
        part_of(x, before + x),
        part_of(x, x + behind),
        part_of(x, x),
{
    let s = before + x + behind;
    let n = before.len() as int;
    assert(s.subrange(n, n + x.len()) =~= x);
    assert((before + x).subrange(n, n + x.len()) =~= x);
    assert((x + behind).subrange(0, x.len() as int) =~= x);
    assert(x.subrange(0, x.len() as int) =~= x);
    lemma_part_at(x, x + behind, 0);
    lemma_part_at(x, x, 0);
}

pub proof fn lemma_part_of_part(x: Seq<char>, y: Seq<char>, s: Seq<char>)
    requires
        part_of(x, y),
        part_of(y, s),
    ensures
        part_of(x, s),
{
    let a = choose|a: int|
        0 <= a && a + x.len() <= y.len() && #[trigger] y.subrange(a, a + x.len()) == x;
    let b = choose|b: int|
        0 <= b && b + y.len() <= s.len() && #[trigger] s.subrange(b, b + y.len()) == y;
    let whole = s.subrange(b, b + y.len());
    assert(whole == y);
    assert(s.subrange(b + a, b + a + x.len()) =~= whole.subrange(a, a + x.len()));
}

/// A part of a text stays one however the text goes on.
pub proof fn lemma_part_stays(x: Seq<char>, s: Seq<char>, more: Seq<char>)
    requires
        part_of(x, s),
    ensures
        part_of(x, s + more),
        part_of(x, more + s),
{
    lemma_part_between(Seq::empty(), s, more);
    lemma_part_between(more, s, Seq::empty());
    lemma_part_of_part(x, s, s + more);
    lemma_part_of_part(x, s, more + s);
}

/// A list of quoted strings holds every item in quotes, with a comma and a space
/// between them, in brackets.
pub proof fn a_debug_list_holds_every_item(items: Seq<Seq<char>>)
    ensures
        debug_list(items) == "["@ + joined_by(
            Seq::new(items.len(), |i: int| debug_str(items[i])),
            ", "@,
        ) + "]"@,
{
    lemma_quoted(items);
    a_join_holds_every_item(Seq::new(items.len(), |i: int| debug_str(items[i])), ", "@);
}

proof fn lemma_quoted(items: Seq<Seq<char>>)
    ensures
        quoted(items) == join_text(Seq::new(items.len(), |i: int| debug_str(items[i])), ", "@),
    decreases items.len(),
{
    let each = Seq::new(items.len(), |i: int| debug_str(items[i]));
    if items.len() > 1 {
        let short = items.drop_last();
        lemma_quoted(short);
        assert(each.drop_last() =~= Seq::new(short.len(), |i: int| debug_str(short[i])));
    }
}

/// A signed number reads as its magnitude, behind a minus sign where it is below
/// zero; a truth value reads as its word.
pub proof fn signed_numbers_show_their_sign(n: nat)
    ensures
        decimal_int(n as int) == decimal(n),
        n > 0 ==> decimal_int(-(n as int)) == "-"@ + decimal(n),
        bool_text(true) == "true"@,
        bool_text(false) == "false"@,
{
}

} // verus!
