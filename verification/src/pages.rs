//! Page/index selection grammar shared by page-producing cartridges
//! (PDF render/disbind, text pagination).
//!
//! Grammar (1-based, inclusive): comma-separated segments, each one of
//! - `N`        — a single page
//! - `A-B`      — a contiguous range
//! - `A-`       — from A to the end of the document
//!
//! Semantics:
//! - Ranges extending PAST the end are clamped to the document ("give
//!   me 1-100" of a 10-page document renders the 10 that exist) — the
//!   common user intent, not an error.
//! - A segment that starts past the end is a hard error naming both
//!   numbers: the user asked for pages that cannot exist at all, and
//!   silently returning nothing would hide it.
//! - Segments emit in the order written; duplicate indices keep their
//!   first occurrence (`5,1,3` is a deliberate ordering).
//! - `None` / empty selects every page.
//!
//! Returned indices are 0-based.

use crate::text::{decimal_usize, parse_usize, split, string_of, trim};
use vstd::prelude::*;
use vstd::string::*;

verus! {

// ---------------------------------------------------------------------------
// Messages
// ---------------------------------------------------------------------------
pub open spec fn empty_document_message(spec: Seq<char>) -> Seq<char> {
    "index range '"@ + spec + "' selects from an empty document (0 pages)"@
}

pub open spec fn empty_segment_message(spec: Seq<char>) -> Seq<char> {
    "index range '"@ + spec + "' contains an empty segment (stray comma)"@
}

pub open spec fn not_a_number_message(
    spec: Seq<char>,
    what: Seq<char>,
    number: Seq<char>,
) -> Seq<char> {
    "index range '"@ + spec + "': "@ + what + " '"@ + number
        + "' is not a positive number (grammar: N, A-B, A-, comma-separated)"@
}

pub open spec fn zero_page_message(spec: Seq<char>) -> Seq<char> {
    "index range '"@ + spec + "': pages are 1-based, 0 is not a valid page"@
}

pub open spec fn backwards_message(
    spec: Seq<char>,
    segment: Seq<char>,
    start: nat,
    end: nat,
) -> Seq<char> {
    "index range '"@ + spec + "': segment '"@ + segment + "' runs backwards ("@
        + crate::text::decimal(start) + " > "@ + crate::text::decimal(end) + ")"@
}

pub open spec fn past_end_message(
    spec: Seq<char>,
    segment: Seq<char>,
    start: nat,
    total: nat,
) -> Seq<char> {
    "index range '"@ + spec + "': segment '"@ + segment + "' starts at page "@
        + crate::text::decimal(start) + " but the document has only "@ + crate::text::decimal(total)
        + " page"@ + (if total == 1 {
        ""@
    } else {
        "s"@
    })
}

// ---------------------------------------------------------------------------
// Model
// ---------------------------------------------------------------------------
/// One page number of a segment: at least one, else the message that refuses it.
pub open spec fn page_number(spec: Seq<char>, what: Seq<char>, s: Seq<char>) -> Result<
    nat,
    Seq<char>,
> {
    match crate::text::parse_unsigned(crate::text::trimmed(s), usize::MAX as nat) {
        None => Err(not_a_number_message(spec, what, crate::text::trimmed(s))),
        Some(n) => if n == 0 {
            Err(zero_page_message(spec))
        } else {
            Ok(n)
        },
    }
}

/// The 1-based inclusive bounds that a segment writes down, before they are
/// held against the document.
pub open spec fn written_bounds(spec: Seq<char>, segment: Seq<char>, total: nat) -> Result<
    (nat, nat),
    Seq<char>,
> {
    let dash = crate::text::index_from(segment, '-', 0);
    if dash == segment.len() {
        match page_number(spec, "page"@, segment) {
            Err(e) => Err(e),
            Ok(n) => Ok((n, n)),
        }
    } else {
        let a = segment.subrange(0, dash);
        let b = segment.subrange(dash + 1, segment.len() as int);
        match page_number(spec, "range start"@, a) {
            Err(e) => Err(e),
            Ok(start) => if crate::text::trimmed(b).len() == 0 {
                Ok((start, total))
            } else {
                match page_number(spec, "range end"@, b) {
                    Err(e) => Err(e),
                    Ok(end) => Ok((start, end)),
                }
            },
        }
    }
}

/// The 1-based inclusive bounds that a segment selects from a document of
/// `total` pages.
pub open spec fn segment_bounds(spec: Seq<char>, segment: Seq<char>, total: nat) -> Result<
    (nat, nat),
    Seq<char>,
> {
    match written_bounds(spec, segment, total) {
        Err(e) => Err(e),
        Ok((start, end)) => if start > end {
            Err(backwards_message(spec, segment, start, end))
        } else if start > total {
            Err(past_end_message(spec, segment, start, total))
        } else if end > total {
            Ok((start, total))
        } else {
            Ok((start, end))
        },
    }
}

/// `chosen` followed by those of `lo..hi` that it does not hold yet.
pub open spec fn with_range(chosen: Seq<usize>, lo: int, hi: int) -> Seq<usize>
    decreases hi - lo,
{
    if lo >= hi {
        chosen
    } else {
        let before = with_range(chosen, lo, hi - 1);
        if before.contains((hi - 1) as usize) {
            before
        } else {
            before.push((hi - 1) as usize)
        }
    }
}

/// The indices that the first `n` segments select, or the message of the first
/// segment that selects none.
pub open spec fn selected(
    spec: Seq<char>,
    segments: Seq<Seq<char>>,
    total: nat,
    n: nat,
) -> Result<Seq<usize>, Seq<char>>
    decreases n,
{
    if n == 0 {
        Ok(Seq::empty())
    } else {
        match selected(spec, segments, total, (n - 1) as nat) {
            Err(e) => Err(e),
            Ok(chosen) => {
                let segment = crate::text::trimmed(segments[n - 1]);
                if segment.len() == 0 {
                    Err(empty_segment_message(spec))
                } else {
                    match segment_bounds(spec, segment, total) {
                        Err(e) => Err(e),
                        Ok((start, end)) => Ok(with_range(chosen, start - 1, end as int)),
                    }
                }
            },
        }
    }
}

/// What a selection picks out of a document of `total` pages.
pub open spec fn selection(spec: Option<Seq<char>>, total: usize) -> Result<Seq<usize>, Seq<char>> {
    match spec {
        None => Ok(Seq::new(total as nat, |i: int| i as usize)),
        Some(s) => {
            let spec = crate::text::trimmed(s);
            let segments = crate::text::split_on(spec, ',');
            if spec.len() == 0 {
                Ok(Seq::new(total as nat, |i: int| i as usize))
            } else if total == 0 {
                Err(empty_document_message(spec))
            } else {
                selected(spec, segments, total as nat, segments.len())
            }
        },
    }
}

/// A result whose success and failure are compared by their contents.
pub open spec fn result_view(r: Result<Vec<usize>, String>) -> Result<Seq<usize>, Seq<char>> {
    match r {
        Ok(v) => Ok(v@),
        Err(e) => Err(e@),
    }
}

// ---------------------------------------------------------------------------
// Parsing
// ---------------------------------------------------------------------------
fn parse_page_number(spec: &str, what: &str, s: &str) -> (r: Result<usize, String>)
    ensures
        match r {
            Ok(n) => page_number(spec@, what@, s@) == Ok::<nat, Seq<char>>(n as nat),
            Err(e) => page_number(spec@, what@, s@) == Err::<nat, Seq<char>>(e@),
        },
{
    let number = trim(s);
    match parse_usize(number.as_str()) {
        None => Err(
            "index range '".to_owned().concat(spec).concat("': ").concat(what).concat(" '").concat(
                number.as_str(),
            ).concat("' is not a positive number (grammar: N, A-B, A-, comma-separated)"),
        ),
        Some(n) => {
            if n == 0 {
                Err(
                    "index range '".to_owned().concat(spec).concat(
                        "': pages are 1-based, 0 is not a valid page",
                    ),
                )
            } else {
                Ok(n)
            }
        },
    }
}

fn parse_written_bounds(segment: &str, spec: &str, total: usize) -> (r: Result<
    (usize, usize),
    String,
>)
    ensures
        match r {
            Ok((a, b)) => written_bounds(spec@, segment@, total as nat) == Ok::<
                (nat, nat),
                Seq<char>,
            >((a as nat, b as nat)),
            Err(e) => written_bounds(spec@, segment@, total as nat) == Err::<
                (nat, nat),
                Seq<char>,
            >(e@),
        },
{
    let chars = crate::text::chars_of(segment);
    let mut dash: usize = 0;
    while dash < chars.len() && chars[dash] != '-'
        invariant
            dash <= chars.len(),
            chars@ == segment@,
            crate::text::index_from(segment@, '-', 0) == crate::text::index_from(
                segment@,
                '-',
                dash as int,
            ),
        decreases chars.len() - dash,
    {
        dash = dash + 1;
    }
    if dash == chars.len() {
        let n: usize = parse_page_number(spec, "page", segment)?;
        Ok((n, n))
    } else {
        let a = string_of(&chars, 0, dash);
        let b = string_of(&chars, dash + 1, chars.len());
        let start: usize = parse_page_number(spec, "range start", a.as_str())?;
        if trim(b.as_str()).as_str().is_empty() {
            Ok((start, total))
        } else {
            let end: usize = parse_page_number(spec, "range end", b.as_str())?;
            Ok((start, end))
        }
    }
}

/// Parse one `N` / `A-B` / `A-` segment into a 1-based inclusive
/// `(start, end)` pair, clamped to `total`.
pub fn parse_segment(segment: &str, spec: &str, total: usize) -> (r: Result<(usize, usize), String>)
    ensures
        match r {
            Ok((a, b)) => segment_bounds(spec@, segment@, total as nat) == Ok::<
                (nat, nat),
                Seq<char>,
            >((a as nat, b as nat)),
            Err(e) => segment_bounds(spec@, segment@, total as nat) == Err::<
                (nat, nat),
                Seq<char>,
            >(e@),
        },
{
    let (start, end): (usize, usize) = parse_written_bounds(segment, spec, total)?;
    if start > end {
        return Err(
            "index range '".to_owned().concat(spec).concat("': segment '").concat(segment).concat(
                "' runs backwards (",
            ).concat(decimal_usize(start).as_str()).concat(" > ").concat(
                decimal_usize(end).as_str(),
            ).concat(")"),
        );
    }
    if start > total {
        let plural = if total == 1 {
            ""
        } else {
            "s"
        };
        return Err(
            "index range '".to_owned().concat(spec).concat("': segment '").concat(segment).concat(
                "' starts at page ",
            ).concat(decimal_usize(start).as_str()).concat(" but the document has only ").concat(
                decimal_usize(total).as_str(),
            ).concat(" page").concat(plural),
        );
    }
    // Clamp the end to the document.
    if end > total {
        Ok((start, total))
    } else {
        Ok((start, end))
    }
}

/// A range that starts at `lo` grows `chosen` by exactly the indices missing
/// from it.
proof fn lemma_with_range_contains(chosen: Seq<usize>, lo: int, hi: int, x: usize)
    requires
        0 <= lo <= hi <= usize::MAX,
    ensures
        with_range(chosen, lo, hi).contains(x) <==> chosen.contains(x) || lo <= x < hi,
    decreases hi - lo,
{
    if lo < hi {
        let before = with_range(chosen, lo, hi - 1);
        lemma_with_range_contains(chosen, lo, hi - 1, x);
        let grown = before.push((hi - 1) as usize);
        if before.contains(x) {
            let i = choose|i: int| 0 <= i < before.len() && before[i] == x;
            assert(grown[i] == x);
        }
        assert(grown[before.len() as int] == (hi - 1) as usize);
    }
}

fn every_index(total: usize) -> (r: Vec<usize>)
    ensures
        r@ == Seq::new(total as nat, |i: int| i as usize),
{
    let mut out: Vec<usize> = Vec::new();
    let mut i: usize = 0;
    while i < total
        invariant
            i <= total,
            out@ == Seq::new(i as nat, |j: int| j as usize),
        decreases total - i,
    {
        out.push(i);
        i = i + 1;
        assert(out@ =~= Seq::new(i as nat, |j: int| j as usize));
    }
    out
}

/// Parse a page-selection spec against a document of `total` pages.
pub fn parse_index_range(spec: Option<&str>, total: usize) -> (r: Result<Vec<usize>, String>)
    ensures
        result_view(r) == selection(
            match spec {
                None => None,
                Some(s) => Some(s@),
            },
            total,
        ),
{
    let text = match spec {
        None => {
            return Ok(every_index(total));
        },
        Some(s) => trim(s),
    };
    if text.as_str().is_empty() {
        return Ok(every_index(total));
    }
    if total == 0 {
        return Err(
            "index range '".to_owned().concat(text.as_str()).concat(
                "' selects from an empty document (0 pages)",
            ),
        );
    }
    let mut out: Vec<usize> = Vec::new();
    let mut seen: Vec<bool> = Vec::new();
    while seen.len() < total
        invariant
            seen.len() <= total,
            forall|i: int| 0 <= i < seen.len() ==> !#[trigger] seen[i],
        decreases total - seen.len(),
    {
        seen.push(false);
    }
    let segments = split(text.as_str(), ',');
    let ghost pieces = crate::text::views(segments@);
    let mut n: usize = 0;
    assert(forall|i: int| 0 <= i < total ==> seen[i] == out@.contains(i as usize));
    while n < segments.len()
        invariant
            n <= segments.len(),
            pieces == crate::text::views(segments@),
            seen.len() == total,
            selected(text@, pieces, total as nat, n as nat) == Ok::<Seq<usize>, Seq<char>>(out@),
            forall|i: int| 0 <= i < total ==> #[trigger] seen[i] == out@.contains(i as usize),
            selection(
                match spec {
                    None => None,
                    Some(s) => Some(s@),
                },
                total,
            ) == selected(text@, pieces, total as nat, pieces.len()),
        decreases segments.len() - n,
    {
        let segment = trim(segments[n].as_str());
        assert(pieces[n as int] == segments@[n as int]@);
        proof {
            lemma_error_is_final(text@, pieces, total as nat, (n + 1) as nat, pieces.len());
        }
        if segment.as_str().is_empty() {
            return Err(
                "index range '".to_owned().concat(text.as_str()).concat(
                    "' contains an empty segment (stray comma)",
                ),
            );
        }
        let (start, end): (usize, usize) = match parse_segment(
            segment.as_str(),
            text.as_str(),
            total,
        ) {
            Ok(bounds) => bounds,
            Err(e) => {
                return Err(e);
            },
        };
        proof {
            lemma_bounds_in_document(text@, segment@, total as nat);
        }
        let ghost chosen = out@;
        let mut idx: usize = start - 1;
        while idx < end
            invariant
                start - 1 <= idx <= end <= total,
                1 <= start,
                seen.len() == total,
                out@ == with_range(chosen, start - 1, idx as int),
                forall|i: int| 0 <= i < total ==> #[trigger] seen[i] == out@.contains(i as usize),
            decreases end - idx,
        {
            let ghost before = out@;
            if !seen[idx] {
                seen.set(idx, true);
                out.push(idx);
                assert forall|i: int| 0 <= i < total implies #[trigger] seen[i] == out@.contains(
                    i as usize,
                ) by {
                    if i == idx {
                        assert(out@[before.len() as int] == idx);
                    } else if before.contains(i as usize) {
                        let k = choose|k: int| 0 <= k < before.len() && before[k] == i as usize;
                        assert(out@[k] == i as usize);
                    }
                }
            }
            idx = idx + 1;
        }
        n = n + 1;
    }
    Ok(out)
}

/// Once a prefix of the segments fails, every longer prefix fails the same way.
pub proof fn lemma_error_is_final(
    spec: Seq<char>,
    segments: Seq<Seq<char>>,
    total: nat,
    m: nat,
    n: nat,
)
    requires
        m <= n,
    ensures
        selected(spec, segments, total, m) is Err ==> selected(spec, segments, total, n)
            == selected(spec, segments, total, m),
    decreases n - m,
{
    if m < n {
        lemma_error_is_final(spec, segments, total, m, (n - 1) as nat);
    }
}

/// The bounds of a segment lie inside the document and are in order.
pub proof fn lemma_bounds_in_document(spec: Seq<char>, segment: Seq<char>, total: nat)
    ensures
        segment_bounds(spec, segment, total) matches Ok((a, b)) ==> 1 <= a <= b <= total,
{
}

// ---------------------------------------------------------------------------
// Laws
// ---------------------------------------------------------------------------
proof fn lemma_with_range_distinct(chosen: Seq<usize>, lo: int, hi: int)
    requires
        chosen.no_duplicates(),
        0 <= lo <= hi <= usize::MAX,
    ensures
        with_range(chosen, lo, hi).no_duplicates(),
    decreases hi - lo,
{
    if lo < hi {
        lemma_with_range_distinct(chosen, lo, hi - 1);
    }
}

proof fn lemma_selected_distinct_in_bounds(
    spec: Seq<char>,
    segments: Seq<Seq<char>>,
    total: nat,
    n: nat,
)
    requires
        total <= usize::MAX,
    ensures
        selected(spec, segments, total, n) matches Ok(s) ==> {
            &&& s.no_duplicates()
            &&& forall|x: usize| #[trigger] s.contains(x) ==> x < total
        },
    decreases n,
{
    if n > 0 {
        lemma_selected_distinct_in_bounds(spec, segments, total, (n - 1) as nat);
        let segment = crate::text::trimmed(segments[n - 1]);
        lemma_bounds_in_document(spec, segment, total);
        match (
            selected(spec, segments, total, (n - 1) as nat),
            segment_bounds(spec, segment, total),
        ) {
            (Ok(chosen), Ok((a, b))) => {
                lemma_with_range_distinct(chosen, a - 1, b as int);
                assert forall|x: usize|
                    #[trigger] with_range(chosen, a - 1, b as int).contains(x) implies x < total by {
                    lemma_with_range_contains(chosen, a - 1, b as int, x);
                }
            },
            _ => {},
        }
    }
}

/// Every selected index is a page of the document, and none is selected twice.
pub proof fn selection_is_distinct_and_in_bounds(spec: Option<Seq<char>>, total: usize)
    ensures
        selection(spec, total) matches Ok(s) ==> {
            &&& s.no_duplicates()
            &&& forall|i: int| 0 <= i < s.len() ==> #[trigger] s[i] < total
        },
{
    let all = Seq::new(total as nat, |i: int| i as usize);
    assert(all.no_duplicates());
    if let Some(s) = spec {
        let text = crate::text::trimmed(s);
        let segments = crate::text::split_on(text, ',');
        lemma_selected_distinct_in_bounds(text, segments, total as nat, segments.len());
        if let Ok(r) = selected(text, segments, total as nat, segments.len()) {
            assert forall|i: int| 0 <= i < r.len() implies #[trigger] r[i] < total by {
                assert(r.contains(r[i]));
            }
        }
    }
}

/// Indices come out in the order in which the segments are written: what a
/// longer list of segments selects starts with what a shorter list selects.
pub proof fn selection_keeps_written_order(
    spec: Seq<char>,
    segments: Seq<Seq<char>>,
    total: nat,
    m: nat,
    n: nat,
)
    requires
        m <= n,
        total <= usize::MAX,
        selected(spec, segments, total, n) is Ok,
    ensures
        selected(spec, segments, total, m) is Ok,
        selected(spec, segments, total, m)->Ok_0.is_prefix_of(
            selected(spec, segments, total, n)->Ok_0,
        ),
    decreases n - m,
{
    lemma_error_is_final(spec, segments, total, m, n);
    if m < n {
        selection_keeps_written_order(spec, segments, total, m, (n - 1) as nat);
        let segment = crate::text::trimmed(segments[n - 1]);
        lemma_bounds_in_document(spec, segment, total);
        let (a, b) = segment_bounds(spec, segment, total)->Ok_0;
        lemma_with_range_extends(
            selected(spec, segments, total, (n - 1) as nat)->Ok_0,
            a - 1,
            b as int,
        );
    }
}

proof fn lemma_with_range_extends(chosen: Seq<usize>, lo: int, hi: int)
    ensures
        chosen.is_prefix_of(with_range(chosen, lo, hi)),
    decreases hi - lo,
{
    if lo < hi {
        lemma_with_range_extends(chosen, lo, hi - 1);
    }
}

/// A range that reaches past the end selects what the range up to the last
/// page selects.
pub proof fn selection_clamps_past_the_end(
    spec: Seq<char>,
    segment: Seq<char>,
    total: nat,
    start: nat,
    end: nat,
)
    requires
        written_bounds(spec, segment, total) == Ok::<(nat, nat), Seq<char>>((start, end)),
        start <= total,
        total < end,
    ensures
        segment_bounds(spec, segment, total) == Ok::<(nat, nat), Seq<char>>((start, total)),
{
}

/// The indices below `total`, in their order.
pub open spec fn below(s: Seq<usize>, total: nat) -> Seq<usize>
    decreases s.len(),
{
    if s.len() == 0 {
        Seq::empty()
    } else if s.last() < total {
        below(s.drop_last(), total).push(s.last())
    } else {
        below(s.drop_last(), total)
    }
}

proof fn lemma_below_push(s: Seq<usize>, x: usize, total: nat)
    ensures
        below(s.push(x), total) == if x < total {
            below(s, total).push(x)
        } else {
            below(s, total)
        },
{
    assert(s.push(x).drop_last() =~= s);
}

proof fn lemma_below_contains(s: Seq<usize>, x: usize, total: nat)
    ensures
        below(s, total).contains(x) <==> s.contains(x) && x < total,
    decreases s.len(),
{
    if s.len() > 0 {
        let short = s.drop_last();
        let last = s.last();
        lemma_below_contains(short, x, total);
        if short.contains(x) {
            let i = choose|i: int| 0 <= i < short.len() && short[i] == x;
            assert(s[i] == x);
        }
        if s.contains(x) && x != last {
            let i = choose|i: int| 0 <= i < s.len() && s[i] == x;
            assert(short[i] == x);
        }
        assert(s[s.len() - 1] == last);
        if last < total {
            let kept = below(short, total);
            let grown = kept.push(last);
            assert(grown[kept.len() as int] == last);
            if kept.contains(x) {
                let i = choose|i: int| 0 <= i < kept.len() && kept[i] == x;
                assert(grown[i] == x);
            }
            if grown.contains(x) && x != last {
                let i = choose|i: int| 0 <= i < grown.len() && grown[i] == x;
                assert(kept[i] == x);
            }
        }
    }
}

proof fn lemma_below_range(chosen: Seq<usize>, lo: int, hi: int, total: nat)
    requires
        0 <= lo <= hi <= usize::MAX,
        lo <= total,
    ensures
        below(with_range(chosen, lo, hi), total) == with_range(
            below(chosen, total),
            lo,
            if hi < total {
                hi
            } else {
                total as int
            },
        ),
    decreases hi - lo,
{
    if lo < hi {
        let x = (hi - 1) as usize;
        let before = with_range(chosen, lo, hi - 1);
        lemma_below_range(chosen, lo, hi - 1, total);
        lemma_below_contains(before, x, total);
        lemma_below_push(before, x, total);
    }
}

proof fn lemma_longer_document(
    spec: Seq<char>,
    segments: Seq<Seq<char>>,
    total: nat,
    longer: nat,
    n: nat,
)
    requires
        total <= longer <= usize::MAX,
        selected(spec, segments, total, n) is Ok,
    ensures
        selected(spec, segments, longer, n) is Ok,
        below(selected(spec, segments, longer, n)->Ok_0, total) == selected(
            spec,
            segments,
            total,
            n,
        )->Ok_0,
    decreases n,
{
    if n > 0 {
        lemma_longer_document(spec, segments, total, longer, (n - 1) as nat);
        let segment = crate::text::trimmed(segments[n - 1]);
        lemma_bounds_in_document(spec, segment, total);
        lemma_bounds_in_document(spec, segment, longer);
        let (a, b) = segment_bounds(spec, segment, total)->Ok_0;
        let (a2, b2) = segment_bounds(spec, segment, longer)->Ok_0;
        assert(segment_bounds(spec, segment, longer) is Ok);
        assert(a == a2 && b == if b2 < total {
            b2
        } else {
            total
        });
        lemma_below_range(
            selected(spec, segments, longer, (n - 1) as nat)->Ok_0,
            a - 1,
            b2 as int,
            total,
        );
    }
}

proof fn lemma_every_index_below(longer: nat, total: nat)
    requires
        total <= longer <= usize::MAX,
    ensures
        below(Seq::new(longer, |i: int| i as usize), total) == Seq::new(
            total,
            |i: int| i as usize,
        ),
    decreases longer,
{
    let all = Seq::new(longer, |i: int| i as usize);
    if longer > 0 {
        let short = Seq::new((longer - 1) as nat, |i: int| i as usize);
        assert(all.drop_last() =~= short);
        if total < longer {
            lemma_every_index_below((longer - 1) as nat, total);
        } else {
            lemma_every_index_below((longer - 1) as nat, (total - 1) as nat);
            lemma_all_below(short, (total - 1) as nat, total);
            assert(short.push(all.last()) =~= all);
        }
    }
}

/// A bound that every index meets already keeps them all.
proof fn lemma_all_below(s: Seq<usize>, bound: nat, total: nat)
    requires
        below(s, bound) == s,
        bound <= total,
    ensures
        below(s, total) == s,
    decreases s.len(),
{
    if s.len() > 0 {
        let short = s.drop_last();
        lemma_below_length(short, bound);
        assert(s.last() < bound && below(short, bound) == short) by {
            if s.last() < bound {
                assert(below(short, bound).push(s.last()).drop_last() =~= below(short, bound));
            }
        }
        lemma_all_below(short, bound, total);
        assert(short.push(s.last()) =~= s);
    }
}

proof fn lemma_below_length(s: Seq<usize>, total: nat)
    ensures
        below(s, total).len() <= s.len(),
    decreases s.len(),
{
    if s.len() > 0 {
        lemma_below_length(s.drop_last(), total);
    }
}

/// A longer document never makes a valid selection an error, and never drops or
/// reorders the pages that it selected before: of what it selects, the pages of
/// the shorter document are those selected there, in that order.
pub proof fn a_longer_document_keeps_the_selection(
    spec: Option<Seq<char>>,
    total: usize,
    longer: usize,
)
    requires
        total <= longer,
        selection(spec, total) is Ok,
    ensures
        selection(spec, longer) is Ok,
        below(selection(spec, longer)->Ok_0, total as nat) == selection(spec, total)->Ok_0,
{
    lemma_every_index_below(longer as nat, total as nat);
    if let Some(s) = spec {
        let text = crate::text::trimmed(s);
        let segments = crate::text::split_on(text, ',');
        if text.len() > 0 {
            lemma_longer_document(text, segments, total as nat, longer as nat, segments.len());
        }
    }
}

// ---------------------------------------------------------------------------
// What a selection picks
// ---------------------------------------------------------------------------
/// Exactly the pages that some segment covers are selected.
pub proof fn exactly_the_covered_pages_are_selected(
    spec: Seq<char>,
    segments: Seq<Seq<char>>,
    total: nat,
    n: nat,
    x: usize,
)
    requires
        n <= segments.len(),
        total <= usize::MAX,
        selected(spec, segments, total, n) is Ok,
    ensures
        selected(spec, segments, total, n)->Ok_0.contains(x) <==> exists|k: int|
            #![trigger segments[k]]
            0 <= k < n && segment_bounds(spec, crate::text::trimmed(segments[k]), total)->Ok_0.0
                <= x + 1 <= segment_bounds(
                spec,
                crate::text::trimmed(segments[k]),
                total,
            )->Ok_0.1,
        forall|k: int|
            0 <= k < n ==> segment_bounds(
                spec,
                crate::text::trimmed(#[trigger] segments[k]),
                total,
            ) is Ok,
    decreases n,
{
    if n > 0 {
        let m = (n - 1) as nat;
        lemma_error_is_final(spec, segments, total, m, n);
        exactly_the_covered_pages_are_selected(spec, segments, total, m, x);
        let segment = crate::text::trimmed(segments[m as int]);
        lemma_bounds_in_document(spec, segment, total);
        let (a, b) = segment_bounds(spec, segment, total)->Ok_0;
        lemma_with_range_contains(
            selected(spec, segments, total, m)->Ok_0,
            a - 1,
            b as int,
            x,
        );
        let all = selected(spec, segments, total, n)->Ok_0;
        if all.contains(x) && !selected(spec, segments, total, m)->Ok_0.contains(x) {
            assert(a <= x + 1 <= b);
            assert(segments[m as int] == segments[n - 1]);
        }
    }
}

/// A range adds its missing pages in ascending order.
pub proof fn a_range_adds_its_pages_in_order(chosen: Seq<usize>, lo: int, hi: int, i: int, j: int)
    requires
        0 <= lo <= hi <= usize::MAX,
        chosen.len() <= i < j < with_range(chosen, lo, hi).len(),
    ensures
        with_range(chosen, lo, hi)[i] < with_range(chosen, lo, hi)[j] < hi,
    decreases hi - lo,
{
    lemma_range_grows(chosen, lo, hi);
    let before = with_range(chosen, lo, hi - 1);
    lemma_range_grows(chosen, lo, hi - 1);
    if j < before.len() {
        a_range_adds_its_pages_in_order(chosen, lo, hi - 1, i, j);
    } else {
        lemma_added_below(chosen, lo, hi - 1, i);
    }
}

proof fn lemma_range_grows(chosen: Seq<usize>, lo: int, hi: int)
    ensures
        chosen.len() <= with_range(chosen, lo, hi).len(),
        lo >= hi ==> with_range(chosen, lo, hi) == chosen,
    decreases hi - lo,
{
    if lo < hi {
        lemma_range_grows(chosen, lo, hi - 1);
    }
}

proof fn lemma_added_below(chosen: Seq<usize>, lo: int, hi: int, i: int)
    requires
        0 <= lo,
        hi <= usize::MAX,
        chosen.len() <= i < with_range(chosen, lo, hi).len(),
    ensures
        lo <= with_range(chosen, lo, hi)[i] < hi,
    decreases hi - lo,
{
    if lo < hi && i < with_range(chosen, lo, hi - 1).len() {
        lemma_added_below(chosen, lo, hi - 1, i);
    }
}

proof fn lemma_digits_are_trimmed(s: Seq<char>)
    requires
        s.len() > 0,
        !crate::text::is_space(s[0]),
        !crate::text::is_space(s.last()),
    ensures
        crate::text::trimmed(s) == s,
{
}

proof fn lemma_decimal_page(spec: Seq<char>, what: Seq<char>, n: nat)
    requires
        0 < n <= usize::MAX,
    ensures
        page_number(spec, what, crate::text::decimal(n)) == Ok::<nat, Seq<char>>(n),
        crate::text::trimmed(crate::text::decimal(n)) == crate::text::decimal(n),
        !crate::text::decimal(n).contains('-'),
        !crate::text::decimal(n).contains(','),
{
    crate::text::decimals_denote_their_number(n);
    let s = crate::text::decimal(n);
    assert('0' <= s[0] && s[0] <= '9');
    assert('0' <= s[s.len() - 1] && s[s.len() - 1] <= '9');
    lemma_digits_are_trimmed(s);
    crate::text::decimals_are_read_back(n, usize::MAX as nat);
}

/// A segment that is one number selects that page; one of two numbers with a
/// dash between them selects the pages from the first to the second, both
/// included; one that ends in the dash selects to the end of the document.
/// Pages count from one.
pub proof fn a_segment_selects_what_it_reads(spec: Seq<char>, a: nat, b: nat, total: nat)
    requires
        0 < a <= b,
        a <= total <= usize::MAX,
        b <= usize::MAX,
    ensures
        segment_bounds(spec, crate::text::decimal(a), total) == Ok::<(nat, nat), Seq<char>>((a, a)),
        segment_bounds(
            spec,
            crate::text::decimal(a) + seq!['-'] + crate::text::decimal(b),
            total,
        ) == Ok::<(nat, nat), Seq<char>>(
            (
                a,
                if b <= total {
                    b
                } else {
                    total
                },
            ),
        ),
        segment_bounds(spec, crate::text::decimal(a) + seq!['-'], total) == Ok::<
            (nat, nat),
            Seq<char>,
        >((a, total)),
{
    let x = crate::text::decimal(a);
    let y = crate::text::decimal(b);
    lemma_decimal_page(spec, "page"@, a);
    lemma_decimal_page(spec, "range start"@, a);
    lemma_decimal_page(spec, "range end"@, b);
    assert forall|j: int| 0 <= j < x.len() implies #[trigger] x[j] != '-' by {
        assert(x.contains(x[j]));
    }
    crate::text::lemma_index_from_is(x, '-', 0, x.len() as int);
    let both = x + seq!['-'] + y;
    crate::text::lemma_index_from_is(both, '-', 0, x.len() as int);
    assert(both.subrange(0, x.len() as int) =~= x);
    assert(both.subrange((x.len() + 1) as int, both.len() as int) =~= y);
    crate::text::decimals_denote_their_number(b);
    let open = x + seq!['-'];
    crate::text::lemma_index_from_is(open, '-', 0, x.len() as int);
    assert(open.subrange(0, x.len() as int) =~= x);
    assert(open.subrange((x.len() + 1) as int, open.len() as int) =~= Seq::<char>::empty());
}

/// A segment is refused exactly if its bounds do not parse, run backwards, or
/// start past the last page; what it selects lies between the first page and the
/// last.
pub proof fn a_segment_that_selects_nothing_is_refused(
    spec: Seq<char>,
    segment: Seq<char>,
    total: nat,
)
    ensures
        segment_bounds(spec, segment, total) is Ok <==> written_bounds(spec, segment, total) is Ok
            && written_bounds(spec, segment, total)->Ok_0.0 <= written_bounds(
            spec,
            segment,
            total,
        )->Ok_0.1 && written_bounds(spec, segment, total)->Ok_0.0 <= total,
        segment_bounds(spec, segment, total) is Ok ==> 1 <= segment_bounds(
            spec,
            segment,
            total,
        )->Ok_0.0 <= segment_bounds(spec, segment, total)->Ok_0.1 <= total,
{
}

/// A selection with an empty segment, or with one whose bounds are refused, is
/// refused whole.
pub proof fn a_bad_range_is_refused(
    spec: Seq<char>,
    segments: Seq<Seq<char>>,
    k: int,
    n: nat,
    total: nat,
)
    requires
        0 <= k < n <= segments.len(),
        total <= usize::MAX,
        crate::text::trimmed(segments[k]).len() == 0 || segment_bounds(
            spec,
            crate::text::trimmed(segments[k]),
            total,
        ) is Err,
    ensures
        selected(spec, segments, total, n) is Err,
    decreases n,
{
    if k < n - 1 {
        a_bad_range_is_refused(spec, segments, k, (n - 1) as nat, total);
    }
}

} // verus!
