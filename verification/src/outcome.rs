//! Outcomes of pipeline bodies, and what their segments amount to.

use crate::dag::WriterResult;
use crate::plan::StepToken;
use crate::table::Table;
use crate::text;
use vstd::prelude::*;
use vstd::string::*;

verus! {

/// What became of one body of a pipeline: one item of a ForEach, or the whole
/// of a plan that has none.
#[derive(Debug)]
pub struct BodyOutcome {
    pub foreach_token_id: Option<StepToken>,
    pub body_index: usize,
    pub success: bool,
    pub cap_urns: Vec<String>,
    pub failed_token_id: Option<StepToken>,
    pub error: Option<String>,
    pub failed_arg_urn: Option<String>,
    pub title: Option<String>,
    pub saved_paths: Vec<String>,
    pub total_bytes: usize,
    pub duration_ms: u64,
    pub item_preview_text: Option<String>,
    pub item_byte_count: u64,
}

/// The contents of a `BodyOutcome`.
#[verifier::ext_equal]
pub ghost struct OutcomeView {
    pub foreach_token_id: Option<Seq<char>>,
    pub body_index: usize,
    pub success: bool,
    pub cap_urns: Seq<Seq<char>>,
    pub failed_token_id: Option<Seq<char>>,
    pub error: Option<Seq<char>>,
    pub failed_arg_urn: Option<Seq<char>>,
    pub title: Option<Seq<char>>,
    pub saved_paths: Seq<Seq<char>>,
    pub total_bytes: usize,
    pub duration_ms: u64,
    pub item_preview_text: Option<Seq<char>>,
    pub item_byte_count: u64,
}

impl View for BodyOutcome {
    type V = OutcomeView;

    open spec fn view(&self) -> OutcomeView {
        OutcomeView {
            foreach_token_id: text::opt_view(self.foreach_token_id),
            body_index: self.body_index,
            success: self.success,
            cap_urns: text::views(self.cap_urns@),
            failed_token_id: text::opt_view(self.failed_token_id),
            error: text::opt_view(self.error),
            failed_arg_urn: text::opt_view(self.failed_arg_urn),
            title: text::opt_view(self.title),
            saved_paths: text::views(self.saved_paths@),
            total_bytes: self.total_bytes,
            duration_ms: self.duration_ms,
            item_preview_text: text::opt_view(self.item_preview_text),
            item_byte_count: self.item_byte_count,
        }
    }
}

/// Copy a list of strings.
pub fn clone_strings(v: &Vec<String>) -> (r: Vec<String>)
    ensures
        text::views(r@) == text::views(v@),
{
    let mut r: Vec<String> = Vec::new();
    append_strings(&mut r, v);
    assert(text::views(r@) =~= text::views(v@));
    r
}

/// Append copies of the strings of a list.
pub fn append_strings(to: &mut Vec<String>, v: &Vec<String>)
    ensures
        text::views(final(to)@) == text::views(old(to)@) + text::views(v@),
{
    let ghost before = text::views(to@);
    let mut i: usize = 0;
    assert(before + text::views(v@).take(0) =~= before);
    while i < v.len()
        invariant
            i <= v@.len(),
            text::views(to@) == before + text::views(v@).take(i as int),
        decreases v@.len() - i,
    {
        let ghost now = text::views(to@);
        to.push(v[i].clone());
        proof {
            assert(text::views(to@) =~= now.push(v@[i as int]@));
            assert(text::views(v@).take(i + 1) =~= text::views(v@).take(i as int).push(
                v@[i as int]@,
            ));
            assert(text::views(to@) =~= before + text::views(v@).take(i + 1));
        }
        i = i + 1;
    }
    assert(text::views(v@).take(i as int) =~= text::views(v@));
}

// ---------------------------------------------------------------------------
// What writers left
// ---------------------------------------------------------------------------
/// The bytes that writers wrote.
pub open spec fn written(ws: Seq<WriterResult>) -> nat
    decreases ws.len(),
{
    if ws.len() == 0 {
        0
    } else {
        written(ws.drop_last()) + ws.last().total_bytes as nat
    }
}

/// The files that writers left, in order.
pub open spec fn paths(ws: Seq<WriterResult>) -> Seq<Seq<char>>
    decreases ws.len(),
{
    if ws.len() == 0 {
        Seq::empty()
    } else {
        paths(ws.drop_last()) + text::views(ws.last().saved_paths@)
    }
}

/// The bytes written at the given sinks.
pub open spec fn all_written(
    order: Seq<Seq<char>>,
    results: Map<Seq<char>, Vec<WriterResult>>,
) -> nat
    decreases order.len(),
{
    if order.len() == 0 {
        0
    } else {
        all_written(order.drop_last(), results) + written(results[order.last()]@)
    }
}

/// The files left at the given sinks, in order.
pub open spec fn all_paths(
    order: Seq<Seq<char>>,
    results: Map<Seq<char>, Vec<WriterResult>>,
) -> Seq<Seq<char>>
    decreases order.len(),
{
    if order.len() == 0 {
        Seq::empty()
    } else {
        all_paths(order.drop_last(), results) + paths(results[order.last()]@)
    }
}

proof fn lemma_written_grows(ws: Seq<WriterResult>, k: int)
    requires
        0 <= k <= ws.len(),
    ensures
        written(ws.take(k)) <= written(ws),
    decreases ws.len() - k,
{
    if k < ws.len() {
        assert(ws.take(k + 1).drop_last() =~= ws.take(k));
        lemma_written_grows(ws, k + 1);
    } else {
        assert(ws.take(k) =~= ws);
    }
}

proof fn lemma_all_written_grows(
    order: Seq<Seq<char>>,
    results: Map<Seq<char>, Vec<WriterResult>>,
    k: int,
)
    requires
        0 <= k <= order.len(),
    ensures
        all_written(order.take(k), results) <= all_written(order, results),
    decreases order.len() - k,
{
    if k < order.len() {
        assert(order.take(k + 1).drop_last() =~= order.take(k));
        lemma_all_written_grows(order, results, k + 1);
    } else {
        assert(order.take(k) =~= order);
    }
}

/// The bytes written at all sinks.
pub fn total_written(results: &Table<Vec<WriterResult>>) -> (n: usize)
    requires
        all_written(results.order(), results@) <= usize::MAX,
    ensures
        n == all_written(results.order(), results@),
{
    let count: usize = results.len();
    let ghost order = results.order();
    let mut n: usize = 0;
    let mut i: usize = 0;
    assert(order.take(0) =~= Seq::<Seq<char>>::empty());
    while i < count
        invariant
            order == results.order(),
            count == order.len(),
            i <= count,
            all_written(order, results@) <= usize::MAX,
            n == all_written(order.take(i as int), results@),
        decreases count - i,
    {
        let ws = results.value_at(i);
        proof {
            assert(order.take(i + 1).drop_last() =~= order.take(i as int));
            assert(order.take(i + 1).last() == order[i as int]);
            lemma_all_written_grows(order, results@, i + 1);
        }
        let ghost base = n;
        let mut j: usize = 0;
        assert(ws@.take(0) =~= Seq::<WriterResult>::empty());
        while j < ws.len()
            invariant
                j <= ws@.len(),
                base + written(ws@) <= usize::MAX,
                n == base + written(ws@.take(j as int)),
            decreases ws@.len() - j,
        {
            proof {
                assert(ws@.take(j + 1).drop_last() =~= ws@.take(j as int));
                lemma_written_grows(ws@, j + 1);
            }
            n = n + ws[j].total_bytes;
            j = j + 1;
        }
        assert(ws@.take(j as int) =~= ws@);
        i = i + 1;
    }
    assert(order.take(i as int) =~= order);
    n
}

/// The files left at all sinks.
pub fn total_paths(results: &Table<Vec<WriterResult>>) -> (r: Vec<String>)
    ensures
        text::views(r@) == all_paths(results.order(), results@),
{
    let count: usize = results.len();
    let ghost order = results.order();
    let mut r: Vec<String> = Vec::new();
    let mut i: usize = 0;
    proof {
        assert(order.take(0) =~= Seq::<Seq<char>>::empty());
        assert(text::views(r@) =~= Seq::<Seq<char>>::empty());
    }
    while i < count
        invariant
            order == results.order(),
            count == order.len(),
            i <= count,
            text::views(r@) == all_paths(order.take(i as int), results@),
        decreases count - i,
    {
        let ws = results.value_at(i);
        proof {
            assert(order.take(i + 1).drop_last() =~= order.take(i as int));
            assert(order.take(i + 1).last() == order[i as int]);
        }
        let ghost base = text::views(r@);
        let mut j: usize = 0;
        assert(ws@.take(0) =~= Seq::<WriterResult>::empty());
        assert(base + paths(ws@.take(0)) =~= base);
        while j < ws.len()
            invariant
                j <= ws@.len(),
                text::views(r@) == base + paths(ws@.take(j as int)),
            decreases ws@.len() - j,
        {
            proof {
                assert(ws@.take(j + 1).drop_last() =~= ws@.take(j as int));
            }
            append_strings(&mut r, &ws[j].saved_paths);
            assert(base + paths(ws@.take(j as int)) + text::views(ws@[j as int].saved_paths@)
                =~= base + paths(ws@.take(j + 1)));
            j = j + 1;
        }
        assert(ws@.take(j as int) =~= ws@);
        i = i + 1;
    }
    assert(order.take(i as int) =~= order);
    r
}

// ---------------------------------------------------------------------------
// What is in memory
// ---------------------------------------------------------------------------
/// The bytes of items.
pub open spec fn item_bytes(items: Seq<Vec<u8>>) -> nat
    decreases items.len(),
{
    if items.len() == 0 {
        0
    } else {
        item_bytes(items.drop_last()) + items.last()@.len()
    }
}

/// The bytes of the items at the given nodes.
pub open spec fn all_item_bytes(
    order: Seq<Seq<char>>,
    data: Map<Seq<char>, Vec<Vec<u8>>>,
) -> nat
    decreases order.len(),
{
    if order.len() == 0 {
        0
    } else {
        all_item_bytes(order.drop_last(), data) + item_bytes(data[order.last()]@)
    }
}

proof fn lemma_item_bytes_grow(items: Seq<Vec<u8>>, k: int)
    requires
        0 <= k <= items.len(),
    ensures
        item_bytes(items.take(k)) <= item_bytes(items),
    decreases items.len() - k,
{
    if k < items.len() {
        assert(items.take(k + 1).drop_last() =~= items.take(k));
        lemma_item_bytes_grow(items, k + 1);
    } else {
        assert(items.take(k) =~= items);
    }
}

proof fn lemma_all_item_bytes_grow(
    order: Seq<Seq<char>>,
    data: Map<Seq<char>, Vec<Vec<u8>>>,
    k: int,
)
    requires
        0 <= k <= order.len(),
    ensures
        all_item_bytes(order.take(k), data) <= all_item_bytes(order, data),
    decreases order.len() - k,
{
    if k < order.len() {
        assert(order.take(k + 1).drop_last() =~= order.take(k));
        lemma_all_item_bytes_grow(order, data, k + 1);
    } else {
        assert(order.take(k) =~= order);
    }
}

/// The bytes of all items in memory.
pub fn total_item_bytes(data: &Table<Vec<Vec<u8>>>) -> (n: usize)
    requires
        all_item_bytes(data.order(), data@) <= usize::MAX,
    ensures
        n == all_item_bytes(data.order(), data@),
{
    let count: usize = data.len();
    let ghost order = data.order();
    let mut n: usize = 0;
    let mut i: usize = 0;
    assert(order.take(0) =~= Seq::<Seq<char>>::empty());
    while i < count
        invariant
            order == data.order(),
            count == order.len(),
            i <= count,
            all_item_bytes(order, data@) <= usize::MAX,
            n == all_item_bytes(order.take(i as int), data@),
        decreases count - i,
    {
        let items = data.value_at(i);
        proof {
            assert(order.take(i + 1).drop_last() =~= order.take(i as int));
            assert(order.take(i + 1).last() == order[i as int]);
            lemma_all_item_bytes_grow(order, data@, i + 1);
        }
        let ghost base = n;
        let mut j: usize = 0;
        assert(items@.take(0) =~= Seq::<Vec<u8>>::empty());
        while j < items.len()
            invariant
                j <= items@.len(),
                base + item_bytes(items@) <= usize::MAX,
                n == base + item_bytes(items@.take(j as int)),
            decreases items@.len() - j,
        {
            proof {
                assert(items@.take(j + 1).drop_last() =~= items@.take(j as int));
                lemma_item_bytes_grow(items@, j + 1);
            }
            n = n + items[j].len();
            j = j + 1;
        }
        assert(items@.take(j as int) =~= items@);
        i = i + 1;
    }
    assert(order.take(i as int) =~= order);
    n
}

// ---------------------------------------------------------------------------
// Laws
// ---------------------------------------------------------------------------
/// The bytes written are the sum over the writers: leaving any one of them out
/// lowers the total by exactly its bytes, and nobody writes nothing.
pub proof fn every_writer_counts(ws: Seq<WriterResult>, i: int)
    requires
        0 <= i < ws.len(),
    ensures
        written(ws) == written(ws.remove(i)) + ws[i].total_bytes,
        written(Seq::<WriterResult>::empty()) == 0,
    decreases ws.len(),
{
    if i == ws.len() - 1 {
        assert(ws.remove(i) =~= ws.drop_last());
    } else {
        every_writer_counts(ws.drop_last(), i);
        assert(ws.remove(i).drop_last() =~= ws.drop_last().remove(i));
    }
}

/// The bytes written at sinks are the sum over the sinks.
pub proof fn every_sink_counts(
    order: Seq<Seq<char>>,
    results: Map<Seq<char>, Vec<WriterResult>>,
    i: int,
)
    requires
        0 <= i < order.len(),
    ensures
        all_written(order, results) == all_written(order.remove(i), results) + written(
            results[order[i]]@,
        ),
        all_written(Seq::empty(), results) == 0,
    decreases order.len(),
{
    if i == order.len() - 1 {
        assert(order.remove(i) =~= order.drop_last());
    } else {
        every_sink_counts(order.drop_last(), results, i);
        assert(order.remove(i).drop_last() =~= order.drop_last().remove(i));
    }
}

/// The files of writers are all of their files, writer by writer.
pub proof fn every_saved_path_is_listed(ws: Seq<WriterResult>)
    ensures
        paths(ws) == Seq::new(
            ws.len(),
            |i: int| Seq::new(ws[i].saved_paths@.len(), |j: int| ws[i].saved_paths@[j]@),
        ).flatten(),
    decreases ws.len(),
{
    let each = Seq::new(
        ws.len(),
        |i: int| Seq::new(ws[i].saved_paths@.len(), |j: int| ws[i].saved_paths@[j]@),
    );
    each.lemma_flatten_and_flatten_alt_are_equivalent();
    if ws.len() > 0 {
        let short = ws.drop_last();
        every_saved_path_is_listed(short);
        let before = Seq::new(
            short.len(),
            |i: int| Seq::new(short[i].saved_paths@.len(), |j: int| short[i].saved_paths@[j]@),
        );
        before.lemma_flatten_and_flatten_alt_are_equivalent();
        assert(each.drop_last() =~= before) by {
            assert forall|i: int| 0 <= i < before.len() implies each.drop_last()[i] == before[i] by {
                assert(short[i] == ws[i]);
            }
        }
        assert(each.last() =~= text::views(ws.last().saved_paths@));
    }
}

/// The files left at sinks are those of every sink, sink by sink.
pub proof fn every_sink_lists_its_paths(
    order: Seq<Seq<char>>,
    results: Map<Seq<char>, Vec<WriterResult>>,
)
    ensures
        all_paths(order, results) == Seq::new(
            order.len(),
            |i: int| paths(results[order[i]]@),
        ).flatten(),
    decreases order.len(),
{
    let each = Seq::new(order.len(), |i: int| paths(results[order[i]]@));
    each.lemma_flatten_and_flatten_alt_are_equivalent();
    if order.len() > 0 {
        let short = order.drop_last();
        every_sink_lists_its_paths(short, results);
        let before = Seq::new(short.len(), |i: int| paths(results[short[i]]@));
        before.lemma_flatten_and_flatten_alt_are_equivalent();
        assert(each.drop_last() =~= before);
    }
}

/// The bytes of items are the sum of their lengths.
pub proof fn every_item_counts(items: Seq<Vec<u8>>, i: int)
    requires
        0 <= i < items.len(),
    ensures
        item_bytes(items) == item_bytes(items.remove(i)) + items[i]@.len(),
        item_bytes(Seq::<Vec<u8>>::empty()) == 0,
    decreases items.len(),
{
    if i == items.len() - 1 {
        assert(items.remove(i) =~= items.drop_last());
    } else {
        every_item_counts(items.drop_last(), i);
        assert(items.remove(i).drop_last() =~= items.drop_last().remove(i));
    }
}

/// The bytes of the items at nodes are the sum over the nodes.
pub proof fn every_node_counts(
    order: Seq<Seq<char>>,
    data: Map<Seq<char>, Vec<Vec<u8>>>,
    i: int,
)
    requires
        0 <= i < order.len(),
    ensures
        all_item_bytes(order, data) == all_item_bytes(order.remove(i), data) + item_bytes(
            data[order[i]]@,
        ),
        all_item_bytes(Seq::empty(), data) == 0,
    decreases order.len(),
{
    if i == order.len() - 1 {
        assert(order.remove(i) =~= order.drop_last());
    } else {
        every_node_counts(order.drop_last(), data, i);
        assert(order.remove(i).drop_last() =~= order.drop_last().remove(i));
    }
}

} // verus!
