//! Tagged, media and capability URNs, as the orchestrator reads them.
//!
//! A tagged URN is a prefix, a colon and tags separated by semicolons. A tag is
//! a key, or a key and a value joined by an equals sign; a value is bare or in
//! double quotes. URNs are opaque parsed values: they are compared by the
//! predicates here (the order in which the tags are written plays no part),
//! never as strings.

use crate::table::Table;
use crate::text::{chars_of, same, string_of};
use vstd::prelude::*;
use vstd::string::*;

verus! {

/// The tags of a URN: each key with its value, if it has one.
pub type TagMap = Map<Seq<char>, Option<Seq<char>>>;

/// A tag as written: its key and its value, if it has one.
pub ghost struct WrittenTag {
    pub key: Seq<char>,
    pub value: Option<Seq<char>>,
}

/// Why a string is not a URN.
#[derive(Debug)]
pub enum UrnError {
    /// The string does not start with the expected prefix and a colon.
    WrongPrefix { expected: String },
    /// A tag is neither a key nor a key with a value.
    InvalidTag { tag: String },
    /// A key occurs twice.
    DuplicateTag { key: String },
}

/// The contents of a `UrnError`.
pub ghost enum UrnFault {
    WrongPrefix(Seq<char>),
    InvalidTag(Seq<char>),
    DuplicateTag(Seq<char>),
}

impl View for UrnError {
    type V = UrnFault;

    open spec fn view(&self) -> UrnFault {
        match *self {
            UrnError::WrongPrefix { expected } => UrnFault::WrongPrefix(expected@),
            UrnError::InvalidTag { tag } => UrnFault::InvalidTag(tag@),
            UrnError::DuplicateTag { key } => UrnFault::DuplicateTag(key@),
        }
    }
}

/// How a fault reads.
pub open spec fn fault_text(fault: UrnFault) -> Seq<char> {
    match fault {
        UrnFault::WrongPrefix(expected) => "URN must start with '"@ + expected + "'"@,
        UrnFault::InvalidTag(tag) => "invalid tag '"@ + tag + "'"@,
        UrnFault::DuplicateTag(key) => "duplicate tag '"@ + key + "'"@,
    }
}

impl UrnError {
    /// How the error reads.
    pub fn detail(&self) -> (r: String)
        ensures
            r@ == fault_text(self@),
    {
        match self {
            UrnError::WrongPrefix { expected } => "URN must start with '".to_owned().concat(
                expected.as_str(),
            ).concat("'"),
            UrnError::InvalidTag { tag } => "invalid tag '".to_owned().concat(tag.as_str()).concat(
                "'",
            ),
            UrnError::DuplicateTag { key } => "duplicate tag '".to_owned().concat(
                key.as_str(),
            ).concat("'"),
        }
    }
}

// ---------------------------------------------------------------------------
// Grammar
// ---------------------------------------------------------------------------
/// A character of a key or of a bare value.
pub open spec fn is_tag_char(c: char) -> bool {
    '!' <= c && c <= '~' && c != ';' && c != '=' && c != '"'
}

/// A character of a quoted value.
pub open spec fn is_quoted_char(c: char) -> bool {
    ' ' <= c && c != '"' && c != '\u{7f}'
}

pub open spec fn all_tag_chars(s: Seq<char>) -> bool {
    forall|i: int| 0 <= i < s.len() ==> is_tag_char(#[trigger] s[i])
}

pub open spec fn all_quoted_chars(s: Seq<char>) -> bool {
    forall|i: int| 0 <= i < s.len() ==> is_quoted_char(#[trigger] s[i])
}

/// The first semicolon outside double quotes at or after `from`, or the length
/// of `s` where there is none; `quoted` says whether `from` lies inside quotes.
pub open spec fn tag_break(s: Seq<char>, from: int, quoted: bool) -> int
    decreases s.len() - from,
{
    if from >= s.len() {
        s.len() as int
    } else if s[from] == '"' {
        tag_break(s, from + 1, !quoted)
    } else if s[from] == ';' && !quoted {
        from
    } else {
        tag_break(s, from + 1, quoted)
    }
}

proof fn lemma_tag_break(s: Seq<char>, from: int, quoted: bool)
    requires
        0 <= from <= s.len(),
    ensures
        from <= tag_break(s, from, quoted) <= s.len(),
    decreases s.len() - from,
{
    if from < s.len() {
        if s[from] == '"' {
            lemma_tag_break(s, from + 1, !quoted);
        } else if !(s[from] == ';' && !quoted) {
            lemma_tag_break(s, from + 1, quoted);
        }
    }
}

/// The tags of `s` from `from` on, as written.
pub open spec fn tag_pieces(s: Seq<char>, from: int) -> Seq<Seq<char>>
    decreases s.len() - from,
    when 0 <= from <= s.len()
    via tag_pieces_decreases
{
    let at = tag_break(s, from, false);
    if at < s.len() {
        seq![s.subrange(from, at)] + tag_pieces(s, at + 1)
    } else {
        seq![s.subrange(from, s.len() as int)]
    }
}

#[via_fn]
proof fn tag_pieces_decreases(s: Seq<char>, from: int) {
    lemma_tag_break(s, from, false);
}

/// The value that a written value stands for.
pub open spec fn written_value(raw: Seq<char>) -> Option<Seq<char>> {
    if raw.len() >= 2 && raw[0] == '"' && raw.last() == '"' && all_quoted_chars(
        raw.subrange(1, raw.len() - 1),
    ) {
        Some(raw.subrange(1, raw.len() - 1))
    } else if raw.len() > 0 && all_tag_chars(raw) {
        Some(raw)
    } else {
        None
    }
}

/// The tag that a piece spells, if it spells one.
pub open spec fn written_tag(piece: Seq<char>) -> Option<WrittenTag> {
    let at = crate::text::index_from(piece, '=', 0);
    let key = piece.subrange(0, at);
    if key.len() == 0 || !all_tag_chars(key) {
        None
    } else if at == piece.len() {
        Some(WrittenTag { key, value: None })
    } else {
        match written_value(piece.subrange(at + 1, piece.len() as int)) {
            None => None,
            Some(value) => Some(WrittenTag { key, value: Some(value) }),
        }
    }
}

/// The tags that the first `n` pieces spell, or the first fault among them.
pub open spec fn tags_of(pieces: Seq<Seq<char>>, n: nat) -> Result<TagMap, UrnFault>
    decreases n,
{
    if n == 0 {
        Ok(Map::empty())
    } else {
        match tags_of(pieces, (n - 1) as nat) {
            Err(e) => Err(e),
            Ok(tags) => match written_tag(pieces[n - 1]) {
                None => Err(UrnFault::InvalidTag(pieces[n - 1])),
                Some(tag) => if tags.contains_key(tag.key) {
                    Err(UrnFault::DuplicateTag(tag.key))
                } else {
                    Ok(tags.insert(tag.key, tag.value))
                },
            },
        }
    }
}

/// The tags of the URN `s` with the given prefix, or why it is no such URN.
pub open spec fn parsed(prefix: Seq<char>, s: Seq<char>) -> Result<TagMap, UrnFault> {
    if !prefix.is_prefix_of(s) {
        Err(UrnFault::WrongPrefix(prefix))
    } else {
        let rest = s.subrange(prefix.len() as int, s.len() as int);
        if rest.len() == 0 {
            Ok(Map::empty())
        } else {
            let pieces = tag_pieces(rest, 0);
            tags_of(pieces, pieces.len())
        }
    }
}

/// The tags held by a table.
pub open spec fn tag_map(t: Map<Seq<char>, Option<String>>) -> TagMap {
    t.map_values(|v: Option<String>| crate::text::opt_view(v))
}

// ---------------------------------------------------------------------------
// Parsing
// ---------------------------------------------------------------------------
fn tag_chars(v: &Vec<char>, from: usize, to: usize) -> (r: bool)
    requires
        from <= to <= v.len(),
    ensures
        r == all_tag_chars(v@.subrange(from as int, to as int)),
{
    let mut i: usize = from;
    let ghost s = v@.subrange(from as int, to as int);
    while i < to
        invariant
            from <= i <= to <= v.len(),
            s == v@.subrange(from as int, to as int),
            forall|j: int| 0 <= j < i - from ==> is_tag_char(#[trigger] s[j]),
        decreases to - i,
    {
        let c = v[i];
        assert(s[i - from] == c);
        if !('!' <= c && c <= '~' && c != ';' && c != '=' && c != '"') {
            return false;
        }
        i = i + 1;
    }
    true
}

fn quoted_chars(v: &Vec<char>, from: usize, to: usize) -> (r: bool)
    requires
        from <= to <= v.len(),
    ensures
        r == all_quoted_chars(v@.subrange(from as int, to as int)),
{
    let mut i: usize = from;
    let ghost s = v@.subrange(from as int, to as int);
    while i < to
        invariant
            from <= i <= to <= v.len(),
            s == v@.subrange(from as int, to as int),
            forall|j: int| 0 <= j < i - from ==> is_quoted_char(#[trigger] s[j]),
        decreases to - i,
    {
        let c = v[i];
        assert(s[i - from] == c);
        if !(' ' <= c && c != '"' && c != '\u{7f}') {
            return false;
        }
        i = i + 1;
    }
    true
}

fn parse_value(v: &Vec<char>, from: usize) -> (r: Option<String>)
    requires
        from <= v.len(),
    ensures
        match r {
            Some(s) => written_value(v@.subrange(from as int, v@.len() as int)) == Some(s@),
            None => written_value(v@.subrange(from as int, v@.len() as int)) is None,
        },
{
    let end: usize = v.len();
    let ghost raw = v@.subrange(from as int, end as int);
    if end - from >= 2 && v[from] == '"' && v[end - 1] == '"' {
        assert(raw.subrange(1, raw.len() - 1) =~= v@.subrange(from + 1, end - 1));
        if quoted_chars(v, from + 1, end - 1) {
            return Some(string_of(v, from + 1, end - 1));
        }
    }
    if end > from && tag_chars(v, from, end) {
        Some(string_of(v, from, end))
    } else {
        None
    }
}

fn parse_tag(piece: &str) -> (r: Option<(String, Option<String>)>)
    ensures
        match r {
            Some((key, None)) => written_tag(piece@) == Some(
                (WrittenTag { key: key@, value: None }),
            ),
            Some((key, Some(value))) => written_tag(piece@) == Some(
                (WrittenTag { key: key@, value: Some(value@) }),
            ),
            None => written_tag(piece@) is None,
        },
{
    let v = chars_of(piece);
    let mut at: usize = 0;
    while at < v.len() && v[at] != '='
        invariant
            at <= v.len(),
            v@ == piece@,
            crate::text::index_from(piece@, '=', 0) == crate::text::index_from(
                piece@,
                '=',
                at as int,
            ),
        decreases v.len() - at,
    {
        at = at + 1;
    }
    if at == 0 || !tag_chars(&v, 0, at) {
        return None;
    }
    let key = string_of(&v, 0, at);
    if at == v.len() {
        return Some((key, None));
    }
    match parse_value(&v, at + 1) {
        Some(value) => Some((key, Some(value))),
        None => None,
    }
}

fn split_tags(v: &Vec<char>) -> (r: Vec<String>)
    ensures
        crate::text::views(r@) == tag_pieces(v@, 0),
{
    let mut r: Vec<String> = Vec::new();
    let mut from: usize = 0;
    let mut i: usize = 0;
    let mut quoted: bool = false;
    while i < v.len()
        invariant
            from <= i <= v.len(),
            tag_break(v@, from as int, false) == tag_break(v@, i as int, quoted),
            crate::text::views(r@) + tag_pieces(v@, from as int) == tag_pieces(v@, 0),
        decreases v.len() - i,
    {
        if v[i] == '"' {
            quoted = !quoted;
        } else if v[i] == ';' && !quoted {
            let piece = string_of(v, from, i);
            let ghost before = crate::text::views(r@);
            r.push(piece);
            assert(crate::text::views(r@) =~= before.push(piece@));
            assert(before.push(piece@) + tag_pieces(v@, i + 1) =~= before + (seq![piece@]
                + tag_pieces(v@, i + 1)));
            from = i + 1;
        }
        i = i + 1;
    }
    let piece = string_of(v, from, v.len());
    let ghost before = crate::text::views(r@);
    r.push(piece);
    assert(crate::text::views(r@) =~= before + seq![piece@]);
    r
}

/// Whether `s` starts with `prefix`.
pub fn starts_with(s: &Vec<char>, prefix: &Vec<char>) -> (r: bool)
    ensures
        r == prefix@.is_prefix_of(s@),
{
    if prefix.len() > s.len() {
        return false;
    }
    let mut i: usize = 0;
    while i < prefix.len()
        invariant
            i <= prefix.len() <= s.len(),
            forall|j: int| 0 <= j < i ==> #[trigger] prefix@[j] == s@[j],
        decreases prefix.len() - i,
    {
        if prefix[i] != s[i] {
            assert(s@.subrange(0, prefix@.len() as int)[i as int] != prefix@[i as int]);
            return false;
        }
        i = i + 1;
    }
    assert(prefix@ =~= s@.subrange(0, prefix@.len() as int));
    true
}

fn parse_tags(prefix: &str, s: &str) -> (r: Result<Table<Option<String>>, UrnError>)
    ensures
        match r {
            Ok(t) => parsed(prefix@, s@) == Ok::<TagMap, UrnFault>(tag_map(t@)),
            Err(e) => parsed(prefix@, s@) == Err::<TagMap, UrnFault>(e@),
        },
{
    let p = chars_of(prefix);
    let v = chars_of(s);
    if !starts_with(&v, &p) {
        return Err(UrnError::WrongPrefix { expected: prefix.to_owned() });
    }
    let mut tags: Table<Option<String>> = Table::new();
    assert(tag_map(tags@) =~= Map::empty());
    if p.len() == v.len() {
        return Ok(tags);
    }
    let rest = chars_of(string_of(&v, p.len(), v.len()).as_str());
    let pieces = split_tags(&rest);
    let ghost written = crate::text::views(pieces@);
    let mut n: usize = 0;
    while n < pieces.len()
        invariant
            n <= pieces.len(),
            written == crate::text::views(pieces@),
            tags_of(written, n as nat) == Ok::<TagMap, UrnFault>(tag_map(tags@)),
            parsed(prefix@, s@) == tags_of(written, written.len()),
        decreases pieces.len() - n,
    {
        proof {
            lemma_fault_is_final(written, (n + 1) as nat, written.len());
            assert(written[n as int] == pieces@[n as int]@);
        }
        match parse_tag(pieces[n].as_str()) {
            None => {
                return Err(UrnError::InvalidTag { tag: pieces[n].clone() });
            },
            Some((key, value)) => {
                if tags.contains_key(key.as_str()) {
                    return Err(UrnError::DuplicateTag { key });
                }
                let ghost before = tags@;
                let ghost given = crate::text::opt_view(value);
                let ghost k = key@;
                tags.insert(key, value);
                assert(tag_map(tags@) =~= tag_map(before).insert(k, given));
            },
        }
        n = n + 1;
    }
    Ok(tags)
}

proof fn lemma_fault_is_final(pieces: Seq<Seq<char>>, m: nat, n: nat)
    requires
        m <= n,
    ensures
        tags_of(pieces, m) is Err ==> tags_of(pieces, n) == tags_of(pieces, m),
    decreases n - m,
{
    if m < n {
        lemma_fault_is_final(pieces, m, (n - 1) as nat);
    }
}

// ---------------------------------------------------------------------------
// Predicates
// ---------------------------------------------------------------------------
/// Whether a value of type `a` may stand where a value of type `b` is asked
/// for: every tag of `b` is a tag of `a`, with the same value where `b` names
/// one.
pub open spec fn tags_conform(a: TagMap, b: TagMap) -> bool {
    forall|k: Seq<char>| #[trigger]
        b.contains_key(k) ==> a.contains_key(k) && (b[k] is None || a[k] == b[k])
}

fn same_value(a: &Option<String>, b: &Option<String>) -> (r: bool)
    ensures
        r == (crate::text::opt_view(*a) == crate::text::opt_view(*b)),
{
    match (a, b) {
        (None, None) => true,
        (Some(x), Some(y)) => same(x.as_str(), y.as_str()),
        _ => false,
    }
}

fn conform(a: &Table<Option<String>>, b: &Table<Option<String>>) -> (r: bool)
    ensures
        r == tags_conform(tag_map(a@), tag_map(b@)),
{
    let n: usize = b.len();
    let mut i: usize = 0;
    let ghost am = tag_map(a@);
    let ghost bm = tag_map(b@);
    while i < n
        invariant
            i <= n,
            n == b.order().len(),
            am == tag_map(a@),
            bm == tag_map(b@),
            forall|k: Seq<char>| #[trigger] b.order().contains(k) <==> b@.contains_key(k),
            forall|j: int|
                0 <= j < i ==> am.contains_key(#[trigger] b.order()[j]) && (bm[b.order()[j]] is None
                    || am[b.order()[j]] == bm[b.order()[j]]),
        decreases n - i,
    {
        let key = b.key_at(i);
        let asked = b.value_at(i);
        assert(bm.contains_key(b.order()[i as int]));
        match a.get(key.as_str()) {
            None => {
                assert(!am.contains_key(key@));
                return false;
            },
            Some(given) => {
                if asked.is_some() && !same_value(given, asked) {
                    assert(am[key@] != bm[key@]);
                    return false;
                }
            },
        }
        i = i + 1;
    }
    assert forall|k: Seq<char>| #[trigger] bm.contains_key(k) implies am.contains_key(k) && (
    bm[k] is None || am[k] == bm[k]) by {
        assert(b.order().contains(k));
        let j = choose|j: int| 0 <= j < b.order().len() && b.order()[j] == k;
        assert(b.order()[j] == k);
    }
    true
}

fn alike(a: &Table<Option<String>>, b: &Table<Option<String>>) -> (r: bool)
    ensures
        r == (tag_map(a@) == tag_map(b@)),
{
    let m: usize = a.len();
    let mut i: usize = 0;
    let ghost am = tag_map(a@);
    let ghost bm = tag_map(b@);
    if !conform(a, b) {
        return false;
    }
    while i < m
        invariant
            i <= m,
            m == a.order().len(),
            tags_conform(am, bm),
            forall|k: Seq<char>| #[trigger] a.order().contains(k) <==> a@.contains_key(k),
            am == tag_map(a@),
            bm == tag_map(b@),
            forall|j: int|
                0 <= j < i ==> bm.contains_key(#[trigger] a.order()[j]) && am[a.order()[j]]
                    == bm[a.order()[j]],
        decreases m - i,
    {
        let key = a.key_at(i);
        let given = a.value_at(i);
        assert(am.contains_key(a.order()[i as int]));
        match b.get(key.as_str()) {
            None => {
                assert(!bm.contains_key(key@));
                return false;
            },
            Some(other) => {
                if !same_value(given, other) {
                    assert(am[key@] != bm[key@]);
                    return false;
                }
            },
        }
        i = i + 1;
    }
    assert forall|k: Seq<char>| #[trigger] am.contains_key(k) implies bm.contains_key(k) && am[k]
        == bm[k] by {
        assert(a.order().contains(k));
        let j = choose|j: int| 0 <= j < a.order().len() && a.order()[j] == k;
        assert(a.order()[j] == k);
    }
    assert forall|k: Seq<char>| bm.contains_key(k) implies am.contains_key(k) by {}
    assert(am.dom() =~= bm.dom());
    assert(am =~= bm);
    true
}

// ---------------------------------------------------------------------------
// Media URNs
// ---------------------------------------------------------------------------
/// The prefix of a media URN.
pub open spec fn media_prefix() -> Seq<char> {
    "media:"@
}

/// The tags of the media URN `s`, or why it is none.
pub open spec fn media_parsed(s: Seq<char>) -> Result<TagMap, UrnFault> {
    parsed(media_prefix(), s)
}

/// A parsed media URN.
pub struct MediaUrn {
    pub text: String,
    pub tags: Table<Option<String>>,
}

impl View for MediaUrn {
    type V = TagMap;

    open spec fn view(&self) -> TagMap {
        tag_map(self.tags@)
    }
}

impl MediaUrn {
    /// Parse a media URN.
    pub fn from_string(s: &str) -> (r: Result<MediaUrn, UrnError>)
        ensures
            match r {
                Ok(u) => media_parsed(s@) == Ok::<TagMap, UrnFault>(u@) && u.text@ == s@,
                Err(e) => media_parsed(s@) == Err::<TagMap, UrnFault>(e@),
            },
    {
        match parse_tags("media:", s) {
            Ok(tags) => Ok(MediaUrn { text: s.to_owned(), tags }),
            Err(e) => Err(e),
        }
    }

    /// Whether two URNs have the same tags.
    pub fn is_equivalent(&self, other: &MediaUrn) -> (r: bool)
        ensures
            r == (self@ == other@),
    {
        alike(&self.tags, &other.tags)
    }

    /// Whether this type is the other or a refinement of it.
    pub fn conforms_to(&self, other: &MediaUrn) -> (r: bool)
        ensures
            r == tags_conform(self@, other@),
    {
        conform(&self.tags, &other.tags)
    }

    /// Whether the two types lie on one specialization chain.
    pub fn is_comparable(&self, other: &MediaUrn) -> (r: bool)
        ensures
            r == (tags_conform(self@, other@) || tags_conform(other@, self@)),
    {
        conform(&self.tags, &other.tags) || conform(&other.tags, &self.tags)
    }

    /// Whether the type is structured as a record.
    pub fn is_record(&self) -> (r: bool)
        ensures
            r == self@.contains_key("record"@),
    {
        self.tags.contains_key("record")
    }
}

/// Whether `a` and `b` are media URNs with the same tags.
pub open spec fn media_equivalent(a: Seq<char>, b: Seq<char>) -> bool {
    media_parsed(a) is Ok && media_parsed(b) is Ok && media_parsed(a) == media_parsed(b)
}

/// Whether the string `s` is a media URN with the tags of `urn`.
pub fn denotes(s: &str, urn: &MediaUrn) -> (r: bool)
    ensures
        r == (media_parsed(s@) == Ok::<TagMap, UrnFault>(urn@)),
{
    match MediaUrn::from_string(s) {
        Ok(u) => u.is_equivalent(urn),
        Err(_) => false,
    }
}

/// Every media URN conforms to the top type, whose URN has no tags.
pub proof fn every_media_conforms_to_top(s: Seq<char>)
    requires
        media_parsed(s) is Ok,
    ensures
        media_parsed("media:"@) == Ok::<TagMap, UrnFault>(Map::empty()),
        tags_conform(media_parsed(s)->Ok_0, Map::empty()),
{
    assert("media:"@.is_prefix_of("media:"@));
}

/// What conforms to a refinement of a type conforms to the type.
pub proof fn conformance_is_transitive(a: TagMap, b: TagMap, c: TagMap)
    requires
        tags_conform(a, b),
        tags_conform(b, c),
    ensures
        tags_conform(a, c),
{
    assert forall|k: Seq<char>| #[trigger] c.contains_key(k) implies a.contains_key(k) && (
    c[k] is None || a[k] == c[k]) by {
        assert(b.contains_key(k));
    }
}

// ---------------------------------------------------------------------------
// Capability URNs
// ---------------------------------------------------------------------------
/// The tags of the capability URN `s`, or why it is none.
pub open spec fn cap_parsed(s: Seq<char>) -> Result<TagMap, UrnFault> {
    parsed("cap:"@, s)
}

/// The value of the tag `key`, or `default` where the tag has none.
pub open spec fn tag_or(tags: TagMap, key: Seq<char>, default: Seq<char>) -> Seq<char> {
    if tags.contains_key(key) && tags[key] is Some {
        tags[key]->Some_0
    } else {
        default
    }
}

/// A parsed capability URN. `in=` and `out=` are its directional coordinates,
/// `effect=` its output media-identity transformation.
pub struct CapUrn {
    pub text: String,
    pub tags: Table<Option<String>>,
}

impl View for CapUrn {
    type V = TagMap;

    open spec fn view(&self) -> TagMap {
        tag_map(self.tags@)
    }
}

impl CapUrn {
    /// Parse a capability URN.
    pub fn from_string(s: &str) -> (r: Result<CapUrn, UrnError>)
        ensures
            match r {
                Ok(u) => cap_parsed(s@) == Ok::<TagMap, UrnFault>(u@) && u.text@ == s@,
                Err(e) => cap_parsed(s@) == Err::<TagMap, UrnFault>(e@),
            },
    {
        match parse_tags("cap:", s) {
            Ok(tags) => Ok(CapUrn { text: s.to_owned(), tags }),
            Err(e) => Err(e),
        }
    }

    fn tag_value_or(&self, key: &str, default: &str) -> (r: String)
        ensures
            r@ == tag_or(self@, key@, default@),
    {
        match self.tags.get(key) {
            Some(Some(value)) => value.clone(),
            _ => default.to_owned(),
        }
    }

    /// The declared main-input media URN; the top type where none is declared.
    pub fn in_spec(&self) -> (r: String)
        ensures
            r@ == tag_or(self@, "in"@, "media:"@),
    {
        self.tag_value_or("in", "media:")
    }

    /// The declared output media URN; the top type where none is declared.
    pub fn out_spec(&self) -> (r: String)
        ensures
            r@ == tag_or(self@, "out"@, "media:"@),
    {
        self.tag_value_or("out", "media:")
    }

    /// The declared effect; `declared` where the URN names none.
    pub fn effect(&self) -> (r: String)
        ensures
            r@ == tag_or(self@, "effect"@, "declared"@),
    {
        self.tag_value_or("effect", "declared")
    }

    /// Whether two URNs have the same tags.
    pub fn is_equivalent(&self, other: &CapUrn) -> (r: bool)
        ensures
            r == (self@ == other@),
    {
        alike(&self.tags, &other.tags)
    }
}

fn clone_tags(t: &Table<Option<String>>) -> (r: Table<Option<String>>)
    ensures
        r@ == t@,
{
    let n: usize = t.len();
    let mut r: Table<Option<String>> = Table::new();
    let ghost keys = t.order();
    let mut i: usize = 0;
    assert(r@ =~= t@.restrict(keys.take(0).to_set()));
    while i < n
        invariant
            keys == t.order(),
            n == keys.len(),
            i <= n,
            r@ == t@.restrict(keys.take(i as int).to_set()),
        decreases n - i,
    {
        proof {
            crate::table::lemma_take_push(keys, i as int);
        }
        r.insert(t.key_at(i).clone(), crate::text::clone_opt(t.value_at(i)));
        assert(r@ =~= t@.restrict(keys.take(i + 1).to_set()));
        i = i + 1;
    }
    proof {
        assert(keys.take(i as int) =~= keys);
        assert(t@.restrict(keys.to_set()) =~= t@) by {
            assert forall|k: Seq<char>| t@.contains_key(k) implies keys.to_set().contains(k) by {
                assert(keys.contains(k));
            }
        }
    }
    r
}

impl Clone for CapUrn {
    fn clone(&self) -> (r: Self)
        ensures
            r.text == self.text,
            r@ == self@,
    {
        CapUrn { text: self.text.clone(), tags: clone_tags(&self.tags) }
    }
}

impl Clone for MediaUrn {
    fn clone(&self) -> (r: Self)
        ensures
            r.text == self.text,
            r@ == self@,
    {
        MediaUrn { text: self.text.clone(), tags: clone_tags(&self.tags) }
    }
}

// ---------------------------------------------------------------------------
// Laws
// ---------------------------------------------------------------------------
/// A URN has exactly the tags that its pieces write down, each once.
pub proof fn a_urn_has_exactly_its_written_tags(pieces: Seq<Seq<char>>, n: nat, i: int)
    requires
        n <= pieces.len(),
        tags_of(pieces, n) is Ok,
        0 <= i < n,
    ensures
        ({
            let tags = tags_of(pieces, n)->Ok_0;
            let tag = written_tag(pieces[i]);
            &&& tag is Some
            &&& tags.contains_key(tag->0.key)
            &&& tags[tag->0.key] == tag->0.value
            &&& forall|j: int|
                0 <= j < n && j != i ==> written_tag(#[trigger] pieces[j])->0.key != tag->0.key
            &&& forall|k: Seq<char>| #[trigger]
                tags.contains_key(k) ==> exists|j: int|
                    0 <= j < n && written_tag(#[trigger] pieces[j])->0.key == k
        }),
    decreases n,
{
    let m = (n - 1) as nat;
    let before = tags_of(pieces, m)->Ok_0;
    let last = written_tag(pieces[m as int])->0;
    let tags = tags_of(pieces, n)->Ok_0;
    assert forall|j: int| 0 <= j < m implies before.contains_key(
        written_tag(#[trigger] pieces[j])->0.key,
    ) by {
        a_urn_has_exactly_its_written_tags(pieces, m, j);
    }
    if i < m {
        a_urn_has_exactly_its_written_tags(pieces, m, i);
    }
    assert forall|k: Seq<char>| #[trigger] tags.contains_key(k) implies exists|j: int|
        0 <= j < n && written_tag(#[trigger] pieces[j])->0.key == k by {
        if k == last.key {
            assert(written_tag(pieces[m as int])->0.key == k);
        } else if m > 0 {
            a_urn_has_exactly_its_written_tags(pieces, m, 0);
            let j = choose|j: int| 0 <= j < m && written_tag(#[trigger] pieces[j])->0.key == k;
            assert(written_tag(pieces[j])->0.key == k);
        }
    }
}

/// A tag as it is written: its key alone, or its key and its value in quotes.
pub open spec fn tag_piece(tag: WrittenTag) -> Seq<char> {
    match tag.value {
        None => tag.key,
        Some(v) => tag.key + seq!['=', '"'] + v + seq!['"'],
    }
}

/// Whether a tag can be written down: its key is not empty and of plain
/// characters, its value holds no quote and no control character.
pub open spec fn writable(tag: WrittenTag) -> bool {
    &&& tag.key.len() > 0
    &&& forall|i: int|
        0 <= i < tag.key.len() ==> '!' <= #[trigger] tag.key[i] && tag.key[i] <= '~' && tag.key[i]
            != ';' && tag.key[i] != '=' && tag.key[i] != '"'
    &&& tag.value matches Some(v) ==> forall|i: int|
        0 <= i < v.len() ==> ' ' <= #[trigger] v[i] && v[i] != '"' && v[i] != '\u{7f}'
}

proof fn lemma_written_back(tag: WrittenTag)
    requires
        writable(tag),
    ensures
        written_tag(tag_piece(tag)) == Some(tag),
{
    let piece = tag_piece(tag);
    let n = tag.key.len() as int;
    assert forall|j: int| 0 <= j < n implies #[trigger] piece[j] != '=' by {
        assert(piece[j] == tag.key[j]);
    }
    assert(all_tag_chars(tag.key));
    match tag.value {
        None => {
            crate::text::lemma_index_from_is(piece, '=', 0, n);
            assert(piece.subrange(0, n) =~= tag.key);
        },
        Some(v) => {
            assert(piece[n] == '=');
            crate::text::lemma_index_from_is(piece, '=', 0, n);
            assert(piece.subrange(0, n) =~= tag.key);
            let raw = piece.subrange(n + 1, piece.len() as int);
            assert(raw =~= seq!['"'] + v + seq!['"']);
            assert(raw.subrange(1, raw.len() - 1) =~= v);
            assert(all_quoted_chars(v));
            assert(written_value(raw) == Some(v));
        },
    }
}

proof fn lemma_break_skips(s: Seq<char>, from: int, to: int, quoted: bool)
    requires
        0 <= from <= to <= s.len(),
        forall|i: int| from <= i < to ==> #[trigger] s[i] != '"' && (quoted || s[i] != ';'),
    ensures
        tag_break(s, from, quoted) == tag_break(s, to, quoted),
    decreases to - from,
{
    if from < to {
        lemma_break_skips(s, from + 1, to, quoted);
    }
}

proof fn lemma_break_behind_tag(s: Seq<char>, from: int, tag: WrittenTag)
    requires
        0 <= from,
        from + tag_piece(tag).len() <= s.len(),
        writable(tag),
        s.subrange(from, from + tag_piece(tag).len()) == tag_piece(tag),
        from + tag_piece(tag).len() < s.len() ==> s[from + tag_piece(tag).len()] == ';',
    ensures
        tag_break(s, from, false) == from + tag_piece(tag).len(),
{
    let piece = tag_piece(tag);
    let n = tag.key.len() as int;
    let end = from + piece.len();
    assert forall|i: int| 0 <= i < piece.len() implies s[from + i] == #[trigger] piece[i] by {
        assert(s.subrange(from, end)[i] == piece[i]);
    }
    assert forall|i: int| from <= i < from + n implies #[trigger] s[i] != '"' && s[i] != ';' by {
        assert(piece[i - from] == tag.key[i - from]);
    }
    lemma_break_skips(s, from, from + n, false);
    if let Some(v) = tag.value {
        assert(piece[n] == '=');
        assert(piece[n + 1] == '"');
        let start = from + n + 2;
        lemma_break_skips(s, from + n, from + n + 1, false);
        assert(tag_break(s, from + n + 1, false) == tag_break(s, start, true));
        assert forall|i: int| start <= i < start + v.len() implies #[trigger] s[i] != '"' by {
            assert(piece[i - from] == v[i - start]);
        }
        lemma_break_skips(s, start, (start + v.len()) as int, true);
        assert(piece[n + 2 + v.len()] == '"');
        assert(tag_break(s, (start + v.len()) as int, true) == tag_break(s, end as int, false));
    }
}

proof fn lemma_pieces_of(s: Seq<char>, from: int, tags: Seq<WrittenTag>)
    requires
        0 <= from <= s.len(),
        tags.len() > 0,
        forall|i: int| 0 <= i < tags.len() ==> writable(#[trigger] tags[i]),
        s.skip(from) == crate::text::joined_by(
            Seq::new(tags.len(), |i: int| tag_piece(tags[i])),
            seq![';'],
        ),
    ensures
        tag_pieces(s, from) == Seq::new(tags.len(), |i: int| tag_piece(tags[i])),
    decreases tags.len(),
{
    let pieces = Seq::new(tags.len(), |i: int| tag_piece(tags[i]));
    let tail = tags.drop_first();
    let rest = Seq::new(tail.len(), |i: int| tag_piece(tail[i]));
    assert(pieces.drop_first() =~= rest);
    crate::text::lemma_joined_by_first(pieces, seq![';']);
    let left = s.skip(from);
    let end = (from + pieces[0].len()) as int;
    assert(pieces[0] == tag_piece(tags[0]));
    if tags.len() > 1 {
        let more = crate::text::joined_by(rest, seq![';']);
        let head = pieces[0] + seq![';'];
        assert(left == head + more);
        assert(left.len() == head.len() + more.len());
        assert(head.len() == pieces[0].len() + 1);
        assert(left[end - from] == head[end - from]);
        assert(s[end] == left[end - from]);
        assert(s.subrange(from, end) =~= pieces[0]) by {
            assert forall|i: int| 0 <= i < pieces[0].len() implies s[from + i] == pieces[0][i] by {
                assert(left[i] == head[i]);
            }
        }
        lemma_break_behind_tag(s, from, tags[0]);
        assert forall|j: int| 0 <= j < more.len() implies s.skip(end + 1)[j] == more[j] by {
            assert(left[end - from + 1 + j] == more[j]);
        }
        assert(s.skip(end + 1) =~= more);
        assert forall|i: int| 0 <= i < tail.len() implies writable(#[trigger] tail[i]) by {
            assert(tail[i] == tags[i + 1]);
        }
        lemma_pieces_of(s, end + 1, tail);
        assert(tag_pieces(s, from) =~= pieces);
    } else {
        assert(left == pieces[0]);
        assert(s.subrange(from, end) =~= pieces[0]);
        lemma_break_behind_tag(s, from, tags[0]);
        assert(tag_pieces(s, from) =~= pieces);
    }
}

proof fn lemma_tags_collected(pieces: Seq<Seq<char>>, tags: Seq<WrittenTag>, n: nat)
    requires
        pieces.len() == tags.len(),
        n <= tags.len(),
        forall|i: int| 0 <= i < tags.len() ==> written_tag(pieces[i]) == Some(#[trigger] tags[i]),
        forall|i: int, j: int|
            0 <= i < j < tags.len() ==> (#[trigger] tags[i]).key != (#[trigger] tags[j]).key,
    ensures
        tags_of(pieces, n) is Ok,
        forall|k: Seq<char>| #[trigger]
            tags_of(pieces, n)->Ok_0.contains_key(k) <==> exists|i: int|
                0 <= i < n && (#[trigger] tags[i]).key == k,
        forall|i: int|
            0 <= i < n ==> tags_of(pieces, n)->Ok_0[(#[trigger] tags[i]).key] == tags[i].value,
    decreases n,
{
    if n > 0 {
        let m = (n - 1) as nat;
        lemma_tags_collected(pieces, tags, m);
        let before = tags_of(pieces, m)->Ok_0;
        let last = tags[m as int];
        assert(written_tag(pieces[m as int]) == Some(last));
        if before.contains_key(last.key) {
            let i = choose|i: int| 0 <= i < m && (#[trigger] tags[i]).key == last.key;
            assert(tags[i].key != tags[m as int].key);
        }
        let all = tags_of(pieces, n)->Ok_0;
        assert(all == before.insert(last.key, last.value));
        assert forall|k: Seq<char>| #[trigger] all.contains_key(k) <==> exists|i: int|
            0 <= i < n && (#[trigger] tags[i]).key == k by {
            if all.contains_key(k) {
                if k == last.key {
                    assert(tags[m as int].key == k);
                } else {
                    assert(before.contains_key(k));
                    let i = choose|i: int| 0 <= i < m && (#[trigger] tags[i]).key == k;
                    assert(tags[i].key == k);
                }
            }
            if exists|i: int| 0 <= i < n && (#[trigger] tags[i]).key == k {
                let i = choose|i: int| 0 <= i < n && (#[trigger] tags[i]).key == k;
                if i < m {
                    assert(before.contains_key(k));
                }
            }
        }
        assert forall|i: int| 0 <= i < n implies all[(#[trigger] tags[i]).key] == tags[i].value by {
            if i < m {
                assert(tags[i].key != tags[m as int].key);
                assert(before.contains_key(tags[i].key));
            }
        }
    }
}

/// What is written is read back: tags with distinct keys, written one behind the
/// other with semicolons between them behind the prefix, are read as exactly
/// these tags.
pub proof fn written_tags_are_read_back(prefix: Seq<char>, tags: Seq<WrittenTag>)
    requires
        tags.len() > 0,
        forall|i: int| 0 <= i < tags.len() ==> writable(#[trigger] tags[i]),
        forall|i: int, j: int|
            0 <= i < j < tags.len() ==> (#[trigger] tags[i]).key != (#[trigger] tags[j]).key,
    ensures
        ({
            let pieces = Seq::new(tags.len(), |i: int| tag_piece(tags[i]));
            let r = parsed(prefix, prefix + crate::text::joined_by(pieces, seq![';']));
            &&& r is Ok
            &&& forall|k: Seq<char>| #[trigger]
                r->Ok_0.contains_key(k) <==> exists|i: int|
                    0 <= i < tags.len() && (#[trigger] tags[i]).key == k
            &&& forall|i: int|
                0 <= i < tags.len() ==> r->Ok_0[(#[trigger] tags[i]).key] == tags[i].value
        }),
{
    let pieces = Seq::new(tags.len(), |i: int| tag_piece(tags[i]));
    let rest = crate::text::joined_by(pieces, seq![';']);
    let s = prefix + rest;
    assert(s.subrange(0, prefix.len() as int) =~= prefix);
    assert(s.subrange(prefix.len() as int, s.len() as int) =~= rest);
    assert(rest.skip(0) =~= rest);
    lemma_pieces_of(rest, 0, tags);
    crate::text::lemma_joined_by_first(pieces, seq![';']);
    assert(pieces[0] == tag_piece(tags[0]));
    assert(writable(tags[0]));
    assert(rest.len() > 0);
    assert forall|i: int| 0 <= i < tags.len() implies written_tag(pieces[i]) == Some(
        #[trigger] tags[i],
    ) by {
        lemma_written_back(tags[i]);
    }
    lemma_tags_collected(pieces, tags, tags.len());
}

/// A URN without its prefix is refused.
pub proof fn the_prefix_is_required(prefix: Seq<char>, s: Seq<char>)
    requires
        s.len() < prefix.len() || s.take(prefix.len() as int) != prefix,
    ensures
        parsed(prefix, s) is Err,
{
    if prefix.is_prefix_of(s) {
        assert(s.take(prefix.len() as int) =~= prefix);
    }
}

/// A key written twice is refused.
pub proof fn a_repeated_key_is_refused(pieces: Seq<Seq<char>>, n: nat, i: int, j: int)
    requires
        0 <= i < j < n <= pieces.len(),
        written_tag(pieces[i]) is Some,
        written_tag(pieces[j]) is Some,
        written_tag(pieces[i])->0.key == written_tag(pieces[j])->0.key,
    ensures
        tags_of(pieces, n) is Err,
{
    if tags_of(pieces, n) is Ok {
        a_urn_has_exactly_its_written_tags(pieces, n, i);
    }
}

/// One media type conforms to another exactly if it has each of its tags, with
/// the same value where the other one gives a value; types that conform to each
/// other both ways with the same valued tags are the same.
pub proof fn conformance_is_by_tags(a: TagMap, b: TagMap, k: Seq<char>)
    ensures
        tags_conform(a, a),
        tags_conform(a, b) && b.contains_key(k) ==> a.contains_key(k),
        tags_conform(a, b) && b.contains_key(k) && b[k] is Some ==> a[k] == b[k],
        b.contains_key(k) && !a.contains_key(k) ==> !tags_conform(a, b),
        b.contains_key(k) && b[k] is Some && a[k] != b[k] ==> !tags_conform(a, b),
        !b.contains_key(k) ==> (tags_conform(a, b) ==> tags_conform(a.insert(k, None), b)),
{
    if tags_conform(a, b) && !b.contains_key(k) {
        assert forall|x: Seq<char>| #[trigger] b.contains_key(x) implies a.insert(
            k,
            None,
        ).contains_key(x) && (b[x] is None || a.insert(k, None)[x] == b[x]) by {
            assert(a.contains_key(x));
        }
    }
}

} // verus!
