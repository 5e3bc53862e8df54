//! The CLI runtime's bookkeeping: which cartridges its long-lived host already
//! serves, and how its part-files are named.

use crate::cartridge;
use crate::cartridge::HostableCartridge;
use crate::dag::ForEachBodyCoordinate;
use crate::text;
use crate::text::{decimal_u64, decimal_usize, lists};
use vstd::prelude::*;
use vstd::string::*;

verus! {

/// What the shared host serves. It is built on first use and reused across
/// every segment, every ForEach body included, so a cap's cartridge process is
/// spawned once.
pub struct CliHost {
    /// Whether the host runs.
    pub running: bool,
    /// Cap URNs already hosted — the fast path for repeated ForEach bodies of
    /// the same cap, which must NOT re-resolve or re-host anything.
    pub registered_caps: Vec<String>,
    /// Cartridge binaries already hosted — a binary serving several caps is
    /// hosted once.
    pub registered_paths: Vec<String>,
    /// Bundled cartridges are discovered and registered exactly once.
    pub bundled_registered: bool,
}

/// Whether a host serves all of the given caps.
pub open spec fn serves(host: CliHost, cap_urns: Seq<Seq<char>>) -> bool {
    host.running && forall|i: int|
        0 <= i < cap_urns.len() ==> text::views(host.registered_caps@).contains(
            #[trigger] cap_urns[i],
        )
}

/// The cartridges that a host does not serve yet.
pub open spec fn unhosted(host: CliHost, resolved: Seq<HostableCartridge>) -> Seq<HostableCartridge>
    decreases resolved.len(),
{
    if resolved.len() == 0 {
        Seq::empty()
    } else if text::views(host.registered_paths@).contains(resolved.last().path@) {
        unhosted(host, resolved.drop_last())
    } else {
        unhosted(host, resolved.drop_last()).push(resolved.last())
    }
}

impl CliHost {
    /// A host that does not run yet.
    pub fn new() -> (h: Self)
        ensures
            !h.running,
            h.registered_caps@.len() == 0,
            h.registered_paths@.len() == 0,
            !h.bundled_registered,
    {
        CliHost {
            running: false,
            registered_caps: Vec::new(),
            registered_paths: Vec::new(),
            bundled_registered: false,
        }
    }

    /// Whether every cap that a segment needs is already hosted.
    pub fn serves(&self, cap_urns: &Vec<String>) -> (r: bool)
        ensures
            r == serves(*self, text::views(cap_urns@)),
    {
        if !self.running {
            return false;
        }
        let ghost all = text::views(cap_urns@);
        let mut i: usize = 0;
        while i < cap_urns.len()
            invariant
                i <= cap_urns@.len(),
                all == text::views(cap_urns@),
                self.running,
                forall|j: int|
                    0 <= j < i ==> text::views(self.registered_caps@).contains(#[trigger] all[j]),
            decreases cap_urns@.len() - i,
        {
            if !lists(&self.registered_caps, cap_urns[i].as_str()) {
                assert(!text::views(self.registered_caps@).contains(all[i as int]));
                return false;
            }
            i = i + 1;
        }
        true
    }

    /// Whether the bundled cartridges are still to be discovered.
    pub fn needs_bundled(&self) -> (r: bool)
        ensures
            r == !self.bundled_registered,
    {
        !self.bundled_registered
    }

    /// The bundled cartridges were discovered, or there are none.
    pub fn bundled_done(&mut self)
        ensures
            *final(self) == (CliHost { bundled_registered: true, ..*old(self) }),
    {
        self.bundled_registered = true;
    }

    /// The host runs from here on.
    pub fn started(&mut self)
        ensures
            *final(self) == (CliHost { running: true, ..*old(self) }),
    {
        self.running = true;
    }

    /// Of the resolved cartridges, those to host now; their binaries count as
    /// hosted from here on.
    pub fn take_new(&mut self, resolved: Vec<HostableCartridge>) -> (r: Vec<HostableCartridge>)
        ensures
            r@ == unhosted(*old(self), resolved@),
            forall|p: Seq<char>| #[trigger]
                text::views(final(self).registered_paths@).contains(p) <==> text::views(
                    old(self).registered_paths@,
                ).contains(p) || cartridge::host_paths(resolved@).contains(p),
            *final(self) == (CliHost {
                registered_paths: final(self).registered_paths,
                ..*old(self)
            }),
    {
        let ghost before = *self;
        let ghost all = resolved@;
        let ghost paths = cartridge::host_paths(all);
        let mut rest = resolved;
        let mut r: Vec<HostableCartridge> = Vec::new();
        let mut fresh: Vec<String> = Vec::new();
        let ghost mut k: int = 0;
        proof {
            assert(all.skip(0) =~= all);
            assert(all.take(0) =~= Seq::<HostableCartridge>::empty());
        }
        while rest.len() > 0
            invariant
                0 <= k <= all.len(),
                paths == cartridge::host_paths(all),
                rest@ == all.skip(k),
                *self == before,
                r@ == unhosted(before, all.take(k)),
                forall|p: Seq<char>| #[trigger]
                    text::views(fresh@).contains(p) || text::views(
                        before.registered_paths@,
                    ).contains(p) <==> paths.take(k).contains(p) || text::views(
                        before.registered_paths@,
                    ).contains(p),
            decreases rest@.len(),
        {
            let c = rest.remove(0);
            proof {
                assert(rest@ =~= all.skip(k + 1));
                assert(c == all[k]);
                assert(all.take(k + 1).drop_last() =~= all.take(k));
                assert(all.take(k + 1).last() == c);
                crate::regions::lemma_take_more(paths, k);
            }
            let ghost had = text::views(fresh@);
            if !lists(&self.registered_paths, c.path.as_str()) {
                let ghost name = c.path@;
                fresh.push(c.path.clone());
                proof {
                    assert(text::views(fresh@) =~= had.push(name));
                    crate::regions::lemma_push(had, name);
                }
                r.push(c);
            }
            proof {
                assert forall|p: Seq<char>| #[trigger]
                    text::views(fresh@).contains(p) || text::views(
                        before.registered_paths@,
                    ).contains(p) <==> paths.take(k + 1).contains(p) || text::views(
                        before.registered_paths@,
                    ).contains(p) by {
                    assert(had.contains(p) || text::views(before.registered_paths@).contains(p)
                        <==> paths.take(k).contains(p) || text::views(
                        before.registered_paths@,
                    ).contains(p));
                }
                k = k + 1;
            }
        }
        proof {
            assert(all.take(k) =~= all);
            assert(paths.take(k) =~= paths);
        }
        let ghost old_paths = text::views(self.registered_paths@);
        crate::outcome::append_strings(&mut self.registered_paths, &fresh);
        proof {
            let new = text::views(self.registered_paths@);
            assert forall|p: Seq<char>| #[trigger] new.contains(p) <==> old_paths.contains(p)
                || paths.contains(p) by {
                lemma_either(old_paths, text::views(fresh@), p);
                assert(text::views(fresh@).contains(p) || old_paths.contains(p) <==> paths.take(
                    k,
                ).contains(p) || old_paths.contains(p));
            }
        }
        r
    }

    /// Every cap that a segment needs is hosted now.
    pub fn record_caps(&mut self, cap_urns: &Vec<String>)
        ensures
            text::views(final(self).registered_caps@) == text::views(old(self).registered_caps@)
                + text::views(cap_urns@),
            *final(self) == (CliHost {
                registered_caps: final(self).registered_caps,
                ..*old(self)
            }),
    {
        crate::outcome::append_strings(&mut self.registered_caps, cap_urns);
    }
}

proof fn lemma_either(a: Seq<Seq<char>>, b: Seq<Seq<char>>, x: Seq<char>)
    ensures
        (a + b).contains(x) == (a.contains(x) || b.contains(x)),
{
    if a.contains(x) {
        let i = choose|i: int| 0 <= i < a.len() && a[i] == x;
        assert((a + b)[i] == x);
    }
    if b.contains(x) {
        let i = choose|i: int| 0 <= i < b.len() && b[i] == x;
        assert((a + b)[a.len() + i] == x);
    }
}

/// A cartridge is hosted once: what was taken is never taken again.
pub proof fn a_cartridge_is_hosted_once(host: CliHost, resolved: Seq<HostableCartridge>)
    requires
        forall|i: int|
            0 <= i < resolved.len() ==> text::views(host.registered_paths@).contains(
                (#[trigger] resolved[i]).path@,
            ),
    ensures
        unhosted(host, resolved).len() == 0,
    decreases resolved.len(),
{
    if resolved.len() > 0 {
        let short = resolved.drop_last();
        assert forall|i: int| 0 <= i < short.len() implies text::views(
            host.registered_paths@,
        ).contains((#[trigger] short[i]).path@) by {
            assert(short[i] == resolved[i]);
        }
        a_cartridge_is_hosted_once(host, short);
        assert(text::views(host.registered_paths@).contains(
            resolved[resolved.len() - 1].path@,
        ));
    }
}

/// Once a segment's caps are recorded on a running host, the next segment with
/// the same caps takes the fast path.
pub proof fn recorded_caps_are_served(before: CliHost, after: CliHost, cap_urns: Seq<Seq<char>>)
    requires
        after.running,
        text::views(after.registered_caps@) == text::views(before.registered_caps@) + cap_urns,
    ensures
        serves(after, cap_urns),
{
    assert forall|i: int| 0 <= i < cap_urns.len() implies text::views(
        after.registered_caps@,
    ).contains(#[trigger] cap_urns[i]) by {
        assert(cap_urns.contains(cap_urns[i]));
        lemma_either(text::views(before.registered_caps@), cap_urns, cap_urns[i]);
    }
}

/// The tag of a terminal sink's part-file: unique across sinks, runs and ForEach
/// bodies by its running number.
pub fn writer_tag(n: u64, sink: &str, body: &Option<ForEachBodyCoordinate>) -> (r: String)
    ensures
        r@ == text::decimal(n as nat) + "."@ + sink@ + (match *body {
            Some(c) => ".b"@ + text::decimal(c.body_index as nat),
            None => Seq::empty(),
        }),
{
    let tag = decimal_u64(n).concat(".").concat(sink);
    match body {
        Some(c) => {
            let r = tag.clone().concat(".b").concat(decimal_usize(c.body_index).as_str());
            assert(r@ =~= tag@ + (".b"@ + text::decimal(c.body_index as nat)));
            r
        },
        None => {
            assert(tag@ + Seq::<char>::empty() =~= tag@);
            tag
        },
    }
}

/// The CLI's ForEach partial-failure policy: failures are exposed, any body
/// failure fails the plan.
pub fn foreach_partial_failure_policy() -> (r: String)
    ensures
        r@ == "fail"@,
{
    "fail".to_owned()
}

/// What is left to host is every cartridge whose path the host does not serve
/// yet, in the order resolved.
pub proof fn every_unserved_cartridge_is_left(host: CliHost, resolved: Seq<HostableCartridge>)
    ensures
        unhosted(host, resolved) == resolved.filter(
            |h: HostableCartridge|
                !(exists|i: int|
                    0 <= i < host.registered_paths@.len() && (
                    #[trigger] host.registered_paths@[i])@ == h.path@),
        ),
    decreases resolved.len(),
{
    let left = |h: HostableCartridge|
        !(exists|i: int|
            0 <= i < host.registered_paths@.len() && (#[trigger] host.registered_paths@[i])@
                == h.path@);
    reveal(Seq::filter);
    if resolved.len() > 0 {
        every_unserved_cartridge_is_left(host, resolved.drop_last());
        let names = text::views(host.registered_paths@);
        let path = resolved.last().path@;
        if names.contains(path) {
            let i = choose|i: int| 0 <= i < names.len() && names[i] == path;
            assert(host.registered_paths@[i]@ == path);
        }
        if !left(resolved.last()) {
            let i = choose|i: int|
                0 <= i < host.registered_paths@.len() && (#[trigger] host.registered_paths@[i])@
                    == path;
            assert(names[i] == path);
        }
        assert(unhosted(host, resolved) =~= resolved.filter(left));
    } else {
        assert(unhosted(host, resolved) =~= resolved.filter(left));
    }
}

} // verus!
