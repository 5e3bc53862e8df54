//! Receive-side credit accounting.
//!
//! A producer streams into a window of credits. Whoever consumes its chunks
//! grants the credits back, in batches: the counters here say how many chunks
//! of each stream were consumed and not granted yet. Before a consumer blocks
//! it flushes what it still holds, so a producer whose window is smaller than
//! the batch can always proceed.

use crate::text;
use crate::text::{clone_opt, decimal_u64, join, same, string_debug};
use vstd::prelude::*;
use vstd::string::*;

verus! {

/// Credits to be granted to the producer of a stream.
#[derive(Debug)]
pub struct CreditGrant {
    pub stream_id: Option<String>,
    pub credits: u64,
}

impl View for CreditGrant {
    type V = (Option<Seq<char>>, u64);

    open spec fn view(&self) -> (Option<Seq<char>>, u64) {
        (text::opt_view(self.stream_id), self.credits)
    }
}

/// The grant batching threshold (chunks consumed per grant) and the chunks
/// consumed since the last grant of each stream.
pub struct CreditPlumbing {
    batch: u64,
    counters: Vec<(Option<String>, u64)>,
}

/// How many credits a counter may hold back: less than one batch.
pub open spec fn below_batch(count: u64, batch: u64) -> bool {
    count == 0 || count < batch
}

/// What a counter at `count` becomes with one chunk more, and what is granted.
pub open spec fn counted(count: u64, batch: u64) -> (u64, Option<u64>) {
    if count + 1 >= batch {
        (0, Some((count + 1) as u64))
    } else {
        ((count + 1) as u64, None)
    }
}

/// The streams of a list of counters.
spec fn stream_names(counters: Seq<(Option<String>, u64)>) -> Seq<Option<Seq<char>>> {
    Seq::new(counters.len(), |i: int| text::opt_view(counters[i].0))
}

/// How the counter of a stream reads.
pub open spec fn counter_text(stream: Option<Seq<char>>, count: u64) -> Seq<char> {
    (match stream {
        Some(s) => "Some("@ + text::debug_str(s) + ")"@,
        None => "None"@,
    }) + ": pending_grants="@ + text::decimal(count as nat)
}

/// How the counters of a plumbing read.
pub open spec fn counter_texts(c: CreditPlumbing) -> Seq<Seq<char>> {
    Seq::new(c.streams().len(), |i: int| counter_text(c.streams()[i], c.pending(c.streams()[i])))
}

fn same_stream(a: &Option<String>, b: &Option<String>) -> (r: bool)
    ensures
        r == (text::opt_view(*a) == text::opt_view(*b)),
{
    match (a, b) {
        (Some(x), Some(y)) => same(x.as_str(), y.as_str()),
        (None, None) => true,
        _ => false,
    }
}

impl CreditPlumbing {
    #[verifier::type_invariant]
    spec fn holds_less_than_a_batch(self) -> bool {
        &&& stream_names(self.counters@).no_duplicates()
        &&& forall|i: int|
            0 <= i < self.counters@.len() ==> below_batch(
                (#[trigger] self.counters@[i]).1,
                self.batch,
            )
    }

    /// The grant batching threshold.
    pub closed spec fn batch(&self) -> u64 {
        self.batch
    }

    /// The streams of which a chunk was consumed, in the order of their first.
    pub closed spec fn streams(&self) -> Seq<Option<Seq<char>>> {
        stream_names(self.counters@)
    }

    /// The chunks of a stream that were consumed and not granted yet.
    pub closed spec fn pending(&self, stream: Option<Seq<char>>) -> u64 {
        let names = stream_names(self.counters@);
        if names.contains(stream) {
            self.counters@[names.index_of(stream)].1
        } else {
            0
        }
    }

    /// Counters at zero. The batch is half the producer's window, at least one.
    pub fn new(initial_credit: u64) -> (c: Self)
        ensures
            c.batch() == if initial_credit / 2 > 1 {
                initial_credit / 2
            } else {
                1
            },
            c.streams().len() == 0,
            forall|s: Option<Seq<char>>| #[trigger] c.pending(s) == 0,
    {
        let half: u64 = initial_credit / 2;
        let batch: u64 = if half > 1 {
            half
        } else {
            1
        };
        CreditPlumbing { batch, counters: Vec::new() }
    }

    /// Counters at zero, with a given batch.
    pub fn with_batch(batch: u64) -> (c: Self)
        ensures
            c.batch() == batch,
            c.streams().len() == 0,
            forall|s: Option<Seq<char>>| #[trigger] c.pending(s) == 0,
    {
        CreditPlumbing { batch, counters: Vec::new() }
    }

    /// The place of a stream's counter, or the number of counters where it has
    /// none.
    fn place(&self, stream_id: &Option<String>) -> (r: usize)
        ensures
            r <= self.counters@.len(),
            r < self.counters@.len() ==> self.streams()[r as int] == text::opt_view(*stream_id)
                && self.counters@[r as int].1 == self.pending(text::opt_view(*stream_id)),
            r == self.counters@.len() <==> !self.streams().contains(text::opt_view(*stream_id)),
    {
        proof {
            use_type_invariant(self);
        }
        let ghost names = stream_names(self.counters@);
        let n: usize = self.counters.len();
        let mut i: usize = 0;
        while i < n
            invariant
                i <= n,
                n == self.counters@.len(),
                names == stream_names(self.counters@),
                names.no_duplicates(),
                forall|j: int| 0 <= j < i ==> #[trigger] names[j] != text::opt_view(*stream_id),
            decreases n - i,
        {
            if same_stream(&self.counters[i].0, stream_id) {
                assert(names[i as int] == text::opt_view(*stream_id));
                return i;
            }
            i = i + 1;
        }
        n
    }

    /// The pending credits of a stream, which are always fewer than a batch.
    pub fn outstanding(&self, stream_id: &Option<String>) -> (r: u64)
        ensures
            r == self.pending(text::opt_view(*stream_id)),
            below_batch(r, self.batch()),
    {
        proof {
            use_type_invariant(self);
        }
        let i: usize = self.place(stream_id);
        if i < self.counters.len() {
            self.counters[i].1
        } else {
            0
        }
    }

    /// Set the counter of a stream.
    fn set(&mut self, stream_id: &Option<String>, count: u64)
        requires
            below_batch(count, old(self).batch()),
        ensures
            final(self).batch() == old(self).batch(),
            final(self).streams() == (if old(self).streams().contains(text::opt_view(*stream_id)) {
                old(self).streams()
            } else {
                old(self).streams().push(text::opt_view(*stream_id))
            }),
            final(self).pending(text::opt_view(*stream_id)) == count,
            forall|s: Option<Seq<char>>|
                s != text::opt_view(*stream_id) ==> #[trigger] final(self).pending(s) == old(
                    self,
                ).pending(s),
    {
        proof {
            use_type_invariant(&*self);
        }
        let i: usize = self.place(stream_id);
        let ghost before = self.counters@;
        let ghost names = stream_names(before);
        let ghost name = text::opt_view(*stream_id);
        let mut counters: Vec<(Option<String>, u64)> = Vec::new();
        std::mem::swap(&mut counters, &mut self.counters);
        if i < counters.len() {
            counters.set(i, (clone_opt(stream_id), count));
            assert(stream_names(counters@) =~= names);
        } else {
            counters.push((clone_opt(stream_id), count));
            assert(stream_names(counters@) =~= names.push(name));
            assert(stream_names(counters@)[names.len() as int] == name);
        }
        self.counters = counters;
        proof {
            let after = stream_names(self.counters@);
            assert(after[i as int] == name);
            assert forall|s: Option<Seq<char>>| s != name implies #[trigger] self.pending(s) == (
            if names.contains(s) {
                before[names.index_of(s)].1
            } else {
                0
            }) by {
                if names.contains(s) {
                    let j = names.index_of(s);
                    assert(after[j] == s);
                } else if after.contains(s) {
                    let j = after.index_of(s);
                    assert(names[j] == s);
                }
            }
        }
    }

    /// A stream is opened: what was pending under its id is forgotten.
    pub fn open(&mut self, stream_id: &Option<String>)
        ensures
            final(self).batch() == old(self).batch(),
            final(self).streams() == (if old(self).streams().contains(text::opt_view(*stream_id)) {
                old(self).streams()
            } else {
                old(self).streams().push(text::opt_view(*stream_id))
            }),
            final(self).pending(text::opt_view(*stream_id)) == 0,
            forall|s: Option<Seq<char>>|
                s != text::opt_view(*stream_id) ==> #[trigger] final(self).pending(s) == old(
                    self,
                ).pending(s),
    {
        self.set(stream_id, 0);
    }

    /// One chunk of a stream was consumed: once a batch is full, its credits
    /// are granted.
    pub fn consume(&mut self, stream_id: &Option<String>) -> (r: Option<CreditGrant>)
        ensures
            final(self).batch() == old(self).batch(),
            final(self).streams() == (if old(self).streams().contains(text::opt_view(*stream_id)) {
                old(self).streams()
            } else {
                old(self).streams().push(text::opt_view(*stream_id))
            }),
            forall|s: Option<Seq<char>>|
                s != text::opt_view(*stream_id) ==> #[trigger] final(self).pending(s) == old(
                    self,
                ).pending(s),
            ({
                let (left, granted) = counted(
                    old(self).pending(text::opt_view(*stream_id)),
                    old(self).batch(),
                );
                &&& final(self).pending(text::opt_view(*stream_id)) == left
                &&& match r {
                    None => granted is None,
                    Some(g) => granted is Some && g@ == (text::opt_view(*stream_id), granted->Some_0),
                }
            }),
    {
        let count: u64 = self.outstanding(stream_id);
        assert(count < u64::MAX);
        let full: bool = count + 1 >= self.batch;
        if full {
            self.set(stream_id, 0);
            Some(CreditGrant { stream_id: clone_opt(stream_id), credits: count + 1 })
        } else {
            self.set(stream_id, count + 1);
            None
        }
    }

    /// The consumer is about to block: grant everything that is held back.
    pub fn flush(&mut self) -> (r: Vec<CreditGrant>)
        ensures
            final(self).batch() == old(self).batch(),
            final(self).streams() == old(self).streams(),
            forall|s: Option<Seq<char>>| #[trigger] final(self).pending(s) == 0,
            // One grant for each stream with pending credits, of exactly those.
            forall|i: int|
                0 <= i < r@.len() ==> {
                    &&& (#[trigger] r@[i])@.1 > 0
                    &&& r@[i]@.1 == old(self).pending(r@[i]@.0)
                },
            forall|s: Option<Seq<char>>| #[trigger]
                old(self).pending(s) > 0 ==> exists|i: int|
                    0 <= i < r@.len() && (#[trigger] r@[i])@.0 == s,
            forall|i: int, j: int|
                0 <= i < j < r@.len() ==> (#[trigger] r@[i])@.0 != (#[trigger] r@[j])@.0,
    {
        proof {
            use_type_invariant(&*self);
        }
        let ghost held = self.counters@;
        let ghost names = stream_names(held);
        let mut r: Vec<CreditGrant> = Vec::new();
        let mut zeroed: Vec<(Option<String>, u64)> = Vec::new();
        let n: usize = self.counters.len();
        let mut i: usize = 0;
        while i < n
            invariant
                i <= n,
                n == held.len(),
                *old(self) == *self,
                held == self.counters@,
                names == stream_names(held),
                names.no_duplicates(),
                zeroed@.len() == i,
                forall|j: int|
                    0 <= j < i ==> (#[trigger] zeroed@[j]).1 == 0 && text::opt_view(zeroed@[j].0)
                        == names[j],
                forall|j: int|
                    0 <= j < r@.len() ==> {
                        &&& (#[trigger] r@[j])@.1 > 0
                        &&& r@[j]@.1 == self.pending(r@[j]@.0)
                        &&& names.take(i as int).contains(r@[j]@.0)
                    },
                forall|k: int|
                    0 <= k < i && (#[trigger] held[k]).1 > 0 ==> exists|j: int|
                        0 <= j < r@.len() && (#[trigger] r@[j])@.0 == names[k],
                forall|a: int, b: int|
                    0 <= a < b < r@.len() ==> (#[trigger] r@[a])@.0 != (#[trigger] r@[b])@.0,
            decreases n - i,
        {
            let count: u64 = self.counters[i].1;
            let ghost before = r@;
            proof {
                assert(self.pending(names[i as int]) == held[i as int].1);
                assert(!names.take(i as int).contains(names[i as int])) by {
                    if names.take(i as int).contains(names[i as int]) {
                        let k = choose|k: int|
                            0 <= k < i && names.take(i as int)[k] == names[i as int];
                        assert(names[k] == names[i as int]);
                    }
                }
                assert(names.take(i + 1) =~= names.take(i as int).push(names[i as int]));
                assert forall|s: Option<Seq<char>>| names.take(i as int).contains(
                    s,
                ) implies #[trigger] names.take(i + 1).contains(s) by {
                    let k = choose|k: int| 0 <= k < i && names.take(i as int)[k] == s;
                    assert(names.take(i + 1)[k] == s);
                }
            }
            if count > 0 {
                r.push(CreditGrant { stream_id: clone_opt(&self.counters[i].0), credits: count });
                assert(names.take(i + 1)[i as int] == names[i as int]);
            }
            zeroed.push((clone_opt(&self.counters[i].0), 0));
            proof {
                assert forall|k: int| 0 <= k < i + 1 && (#[trigger] held[k]).1 > 0 implies exists|
                    j: int,
                | 0 <= j < r@.len() && (#[trigger] r@[j])@.0 == names[k] by {
                    if k < i {
                        let j = choose|j: int|
                            0 <= j < before.len() && (#[trigger] before[j])@.0 == names[k];
                        assert(r@[j] == before[j]);
                    } else {
                        assert(r@[before.len() as int]@.0 == names[k]);
                    }
                }
            }
            i = i + 1;
        }
        proof {
            assert forall|s: Option<Seq<char>>| #[trigger]
                old(self).pending(s) > 0 implies exists|j: int|
                0 <= j < r@.len() && (#[trigger] r@[j])@.0 == s by {
                let k = names.index_of(s);
                assert(held[k].1 > 0);
            }
            assert(stream_names(zeroed@) =~= names);
        }
        self.counters = zeroed;
        r
    }

    /// The counters in words, separated by semicolons.
    pub fn describe(&self) -> (r: String)
        ensures
            r@ == text::join_text(counter_texts(*self), "; "@),
    {
        proof {
            use_type_invariant(self);
        }
        let ghost names = stream_names(self.counters@);
        let ghost all = counter_texts(*self);
        let n: usize = self.counters.len();
        let mut texts: Vec<String> = Vec::new();
        let mut i: usize = 0;
        while i < n
            invariant
                i <= n,
                n == self.counters@.len(),
                names == stream_names(self.counters@),
                names == self.streams(),
                names.no_duplicates(),
                all == counter_texts(*self),
                text::views(texts@) =~= all.take(i as int),
            decreases n - i,
        {
            let stream = match &self.counters[i].0 {
                Some(s) => "Some(".to_owned().concat(string_debug(s.as_str()).as_str()).concat(
                    ")",
                ),
                None => "None".to_owned(),
            };
            let line = stream.concat(": pending_grants=").concat(
                decimal_u64(self.counters[i].1).as_str(),
            );
            proof {
                assert(self.pending(names[i as int]) == self.counters@[i as int].1);
                assert(line@ == all[i as int]);
                assert(all.take(i + 1) =~= all.take(i as int).push(line@));
            }
            let ghost before = text::views(texts@);
            texts.push(line);
            assert(text::views(texts@) =~= before.push(line@));
            i = i + 1;
        }
        assert(all.take(n as int) =~= all);
        join(&texts, "; ")
    }
}

/// What is granted and what stays pending together are what was consumed: a
/// chunk's credit is never lost and never granted twice.
pub proof fn credits_are_conserved(count: u64, batch: u64)
    requires
        below_batch(count, batch),
        count < u64::MAX,
    ensures
        ({
            let (left, granted) = counted(count, batch);
            &&& left + (match granted {
                Some(n) => n,
                None => 0,
            }) == count + 1
            &&& below_batch(left, batch)
            &&& granted is Some ==> granted->Some_0 >= batch
        }),
{
}

} // verus!
