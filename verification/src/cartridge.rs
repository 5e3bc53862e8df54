//! Cartridge discovery, verification and installation: which binary serves a
//! cap, and when its bytes may run.

use crate::executor_error;
use crate::executor_error::ExecutionError;
use crate::failure::AttributionClass;
use crate::outcome::clone_strings;
use crate::spool;
use crate::table::Table;
use crate::text;
use crate::text::{
    chars_of, contains_char, decimal_u64, decimal_usize, join, list_debug, lists, parse_u64_bounded,
    same, sort, split, string_debug, string_of,
};
use crate::urn;
use crate::urn::{starts_with, CapUrn};
use sha2::Digest;
use vstd::prelude::*;
use vstd::string::*;

verus! {

/// The channel of a cartridge: release builds never touch nightly artefacts and
/// vice versa.
#[derive(Debug, Clone, Copy, PartialEq, Eq, Structural)]
pub enum CartridgeChannel {
    Release,
    Nightly,
}

pub open spec fn channel_text(c: CartridgeChannel) -> Seq<char> {
    match c {
        CartridgeChannel::Release => "release"@,
        CartridgeChannel::Nightly => "nightly"@,
    }
}

impl CartridgeChannel {
    /// How the channel is written.
    pub fn as_str(&self) -> (r: &'static str)
        ensures
            r@ == channel_text(*self),
    {
        match self {
            CartridgeChannel::Release => "release",
            CartridgeChannel::Nightly => "nightly",
        }
    }
}

/// A group of caps that a cartridge declares together, with the adapters that
/// inspect content for them.
pub struct CapGroup {
    pub name: String,
    pub caps: Vec<CapUrn>,
    pub adapter_urns: Vec<String>,
}

/// Whether two groups declare the same.
pub open spec fn same_group(a: CapGroup, b: CapGroup) -> bool {
    &&& a.name@ == b.name@
    &&& a.caps@.len() == b.caps@.len()
    &&& forall|i: int|
        0 <= i < a.caps@.len() ==> (#[trigger] a.caps@[i]).text@ == b.caps@[i].text@ && a.caps@[i]@
            == b.caps@[i]@
    &&& text::views(a.adapter_urns@) == text::views(b.adapter_urns@)
}

/// Whether two lists of groups declare the same, group for group.
pub open spec fn same_groups(a: Seq<CapGroup>, b: Seq<CapGroup>) -> bool {
    &&& a.len() == b.len()
    &&& forall|i: int| 0 <= i < a.len() ==> same_group(#[trigger] a[i], b[i])
}

impl Clone for CapGroup {
    fn clone(&self) -> (r: Self)
        ensures
            same_group(r, *self),
    {
        let mut caps: Vec<CapUrn> = Vec::new();
        let mut i: usize = 0;
        while i < self.caps.len()
            invariant
                i <= self.caps@.len(),
                caps@.len() == i,
                forall|j: int|
                    0 <= j < i ==> (#[trigger] caps@[j]).text@ == self.caps@[j].text@ && caps@[j]@
                        == self.caps@[j]@,
            decreases self.caps@.len() - i,
        {
            caps.push(self.caps[i].clone());
            i = i + 1;
        }
        CapGroup {
            name: self.name.clone(),
            caps,
            adapter_urns: clone_strings(&self.adapter_urns),
        }
    }
}

fn clone_groups(v: &Vec<CapGroup>) -> (r: Vec<CapGroup>)
    ensures
        same_groups(r@, v@),
{
    let mut r: Vec<CapGroup> = Vec::new();
    let mut i: usize = 0;
    while i < v.len()
        invariant
            i <= v@.len(),
            r@.len() == i,
            forall|j: int| 0 <= j < i ==> same_group(#[trigger] r@[j], v@[j]),
        decreases v@.len() - i,
    {
        r.push(v[i].clone());
        i = i + 1;
    }
    r
}

/// What a cartridge declares about itself.
pub struct CapManifest {
    pub name: String,
    pub version: String,
    pub channel: CartridgeChannel,
    pub cap_groups: Vec<CapGroup>,
}

/// Manages cartridge discovery, download, and caching.
pub struct CartridgeManager {
    /// Root of the installed cartridges.
    pub cartridge_dir: String,
    /// The cartridge registry this manager installs from. `None`: only dev
    /// binaries and bundled cartridges exist, and any cap that would need a
    /// registry download hard-errors.
    pub registry_url: Option<String>,
    /// Whether signing trust anchors are there. Required for every registry
    /// operation.
    pub trusted: bool,
    /// Channel this manager is operating in.
    pub channel: CartridgeChannel,
    /// Fabric registry manifest version stamped into every provenance record
    /// that this manager writes.
    pub fabric_manifest_version: u32,
    /// Dev binaries by path, with what they declare.
    pub dev_cartridges: Table<CapManifest>,
}

// ---------------------------------------------------------------------------
// Dev binaries
// ---------------------------------------------------------------------------
/// What a dev path turned out to be.
pub enum DevPath {
    /// A file: a standalone binary.
    File(String),
    /// A directory with a provenance record, which names its entry point.
    Cartridge { entry_point: String },
    /// A directory without one: each executable file inside is a binary.
    Plain { executables: Vec<String> },
    /// A directory with an invalid record, or nothing: skipped.
    Skipped,
}

/// The binaries of a dev path.
pub open spec fn dev_binaries(p: DevPath) -> Seq<Seq<char>> {
    match p {
        DevPath::File(path) => seq![path@],
        DevPath::Cartridge { entry_point } => seq![entry_point@],
        DevPath::Plain { executables } => text::views(executables@),
        DevPath::Skipped => Seq::empty(),
    }
}

pub open spec fn all_dev_binaries(paths: Seq<DevPath>) -> Seq<Seq<char>>
    decreases paths.len(),
{
    if paths.len() == 0 {
        Seq::empty()
    } else {
        all_dev_binaries(paths.drop_last()) + dev_binaries(paths.last())
    }
}

/// A manifest that says nothing yet.
pub open spec fn is_blank(m: CapManifest) -> bool {
    &&& m.name@.len() == 0
    &&& m.version@.len() == 0
    &&& m.channel == CartridgeChannel::Release
    &&& m.cap_groups@.len() == 0
}

fn register_blank(t: &mut Table<CapManifest>, path: String)
    ensures
        final(t)@.dom() == old(t)@.dom().insert(path@),
        (forall|k: Seq<char>| #[trigger] old(t)@.contains_key(k) ==> is_blank(old(t)@[k])) ==> (
        forall|k: Seq<char>| #[trigger] final(t)@.contains_key(k) ==> is_blank(final(t)@[k])),
{
    let ghost before = t@;
    t.insert(
        path,
        CapManifest {
            name: String::new(),
            version: String::new(),
            channel: CartridgeChannel::Release,
            cap_groups: Vec::new(),
        },
    );
    assert(t@.dom() =~= before.dom().insert(path@));
}

proof fn lemma_dom_push(s: Seq<Seq<char>>, x: Seq<char>)
    ensures
        s.push(x).to_set() == s.to_set().insert(x),
{
    let longer = s.push(x);
    assert forall|k: Seq<char>| longer.to_set().contains(k) <==> s.to_set().insert(x).contains(
        k,
    ) by {
        if s.contains(k) {
            let j = choose|j: int| 0 <= j < s.len() && s[j] == k;
            assert(longer[j] == k);
        }
        if k == x {
            assert(longer[s.len() as int] == k);
        }
        if longer.contains(k) {
            let j = choose|j: int| 0 <= j < longer.len() && longer[j] == k;
            if j < s.len() {
                assert(s[j] == k);
            }
        }
    }
    assert(longer.to_set() =~= s.to_set().insert(x));
}

impl CartridgeManager {
    /// A manager whose dev binaries have not reported themselves yet.
    pub fn new(
        cartridge_dir: String,
        registry_url: Option<String>,
        channel: CartridgeChannel,
        fabric_manifest_version: u32,
        dev_paths: Vec<DevPath>,
        trusted: bool,
    ) -> (m: Self)
        ensures
            m.cartridge_dir == cartridge_dir,
            m.registry_url == registry_url,
            m.channel == channel,
            m.fabric_manifest_version == fabric_manifest_version,
            m.trusted == trusted,
            m.dev_cartridges@.dom() == all_dev_binaries(dev_paths@).to_set(),
            forall|k: Seq<char>| #[trigger]
                m.dev_cartridges@.contains_key(k) ==> is_blank(m.dev_cartridges@[k]),
    {
        let ghost all = dev_paths@;
        let mut rest = dev_paths;
        let mut dev: Table<CapManifest> = Table::new();
        let ghost mut k: int = 0;
        proof {
            assert(all.skip(0) =~= all);
            assert(all.take(0) =~= Seq::<DevPath>::empty());
            assert(dev@.dom() =~= all_dev_binaries(all.take(0)).to_set());
        }
        while rest.len() > 0
            invariant
                0 <= k <= all.len(),
                rest@ == all.skip(k),
                dev@.dom() == all_dev_binaries(all.take(k)).to_set(),
                forall|x: Seq<char>| #[trigger] dev@.contains_key(x) ==> is_blank(dev@[x]),
            decreases rest@.len(),
        {
            let ghost had = all_dev_binaries(all.take(k));
            let p = rest.remove(0);
            let ghost dp = p;
            proof {
                assert(rest@ =~= all.skip(k + 1));
                assert(p == all[k]);
                assert(all.take(k + 1).drop_last() =~= all.take(k));
                assert(all.take(k + 1).last() == p);
            }
            match p {
                DevPath::File(path) => {
                    proof {
                        lemma_dom_push(had, path@);
                        assert(had + seq![path@] =~= had.push(path@));
                    }
                    register_blank(&mut dev, path);
                },
                DevPath::Cartridge { entry_point } => {
                    proof {
                        lemma_dom_push(had, entry_point@);
                        assert(had + seq![entry_point@] =~= had.push(entry_point@));
                    }
                    register_blank(&mut dev, entry_point);
                },
                DevPath::Plain { executables } => {
                    let ghost names = text::views(executables@);
                    let mut i: usize = 0;
                    assert(had + names.take(0) =~= had);
                    while i < executables.len()
                        invariant
                            i <= executables@.len(),
                            names == text::views(executables@),
                            dev@.dom() == (had + names.take(i as int)).to_set(),
                            forall|x: Seq<char>| #[trigger]
                                dev@.contains_key(x) ==> is_blank(dev@[x]),
                        decreases executables@.len() - i,
                    {
                        proof {
                            lemma_dom_push(had + names.take(i as int), names[i as int]);
                            assert((had + names.take(i as int)).push(names[i as int]) =~= had
                                + names.take(i + 1));
                        }
                        register_blank(&mut dev, executables[i].clone());
                        i = i + 1;
                    }
                    assert(names.take(i as int) =~= names);
                },
                DevPath::Skipped => {
                    assert(had + Seq::<Seq<char>>::empty() =~= had);
                },
            }
            proof {
                k = k + 1;
            }
        }
        assert(all.take(k) =~= all);
        CartridgeManager {
            cartridge_dir,
            registry_url,
            trusted,
            channel,
            fabric_manifest_version,
            dev_cartridges: dev,
        }
    }

    /// A dev binary reported what it declares.
    pub fn set_manifest(&mut self, path: String, manifest: CapManifest)
        ensures
            final(self).dev_cartridges@ == old(self).dev_cartridges@.insert(path@, manifest),
            *final(self) == (CartridgeManager {
                dev_cartridges: final(self).dev_cartridges,
                ..*old(self)
            }),
    {
        self.dev_cartridges.insert(path, manifest);
    }
}

/// The failure of a registry that could not be synced.
pub fn sync_failed(registry_url: &str, why: &str) -> (e: ExecutionError)
    ensures
        spool::host_error(
            e,
            "cartridge registry sync failed for '"@ + registry_url@ + "': "@ + why@,
        ),
{
    ExecutionError::HostError(
        "cartridge registry sync failed for '".to_owned().concat(registry_url).concat(
            "': ",
        ).concat(why),
    )
}

// ---------------------------------------------------------------------------
// What registry operations need
// ---------------------------------------------------------------------------
/// A failed download with the given text.
pub open spec fn download_error(e: ExecutionError, message: Seq<char>) -> bool {
    e matches ExecutionError::CartridgeDownloadFailed(m) && m@ == message
}

pub open spec fn no_registry_text(context: Seq<char>) -> Seq<char> {
    context
        + ": this build bakes no cartridge registry — registry installs and downloads are disabled in dev builds (use --dev-bins or a bundled cartridge)"@
}

pub open spec fn no_trust_text(context: Seq<char>) -> Seq<char> {
    context
        + ": this build bakes no cartridge signing root keys — registry downloads are disabled without them (a product build bakes MFR_CARTRIDGE_ROOT_PUBKEYS beside the registry URL)"@
}

impl CartridgeManager {
    /// The configured registry URL, or the hard error every registry operation
    /// raises in a registry-less (dev) build.
    pub fn registry_url_required(&self, context: &str) -> (r: Result<&str, ExecutionError>)
        ensures
            match self.registry_url {
                Some(url) => r is Ok && r->Ok_0@ == url@,
                None => r is Err && download_error(r->Err_0, no_registry_text(context@)),
            },
    {
        match &self.registry_url {
            Some(url) => Ok(url.as_str()),
            None => Err(
                ExecutionError::CartridgeDownloadFailed(
                    context.to_owned().concat(
                        ": this build bakes no cartridge registry — registry installs and downloads are disabled in dev builds (use --dev-bins or a bundled cartridge)",
                    ),
                ),
            ),
        }
    }

    /// The hard error raised when a registry operation is attempted without
    /// signing trust anchors.
    pub fn trust_required(&self, context: &str) -> (r: Result<(), ExecutionError>)
        ensures
            match r {
                Ok(()) => self.trusted,
                Err(e) => !self.trusted && download_error(e, no_trust_text(context@)),
            },
    {
        if self.trusted {
            Ok(())
        } else {
            Err(
                ExecutionError::CartridgeDownloadFailed(
                    context.to_owned().concat(
                        ": this build bakes no cartridge signing root keys — registry downloads are disabled without them (a product build bakes MFR_CARTRIDGE_ROOT_PUBKEYS beside the registry URL)",
                    ),
                ),
            )
        }
    }
}

// ---------------------------------------------------------------------------
// Which cartridge serves a cap
// ---------------------------------------------------------------------------
/// Whether a cartridge declares exactly the given cap. This is RESOLUTION, not
/// dispatch: the cartridge that implements THAT cap must run, never a merely
/// dispatchable one.
pub open spec fn declares(m: CapManifest, cap: urn::TagMap) -> bool {
    exists|g: int|
        0 <= g < m.cap_groups@.len() && group_declares(#[trigger] m.cap_groups@[g], cap)
}

/// Whether a group holds exactly the given cap.
pub open spec fn group_declares(g: CapGroup, cap: urn::TagMap) -> bool {
    exists|i: int| 0 <= i < g.caps@.len() && (#[trigger] g.caps@[i])@ == cap
}

/// The first dev binary at or after position `from` that declares the cap, or
/// the number of dev binaries where there is none.
pub open spec fn declaring_dev(
    order: Seq<Seq<char>>,
    dev: Map<Seq<char>, CapManifest>,
    cap: urn::TagMap,
    from: int,
) -> int
    decreases order.len() - from,
{
    if from >= order.len() {
        order.len() as int
    } else if declares(dev[order[from]], cap) {
        from
    } else {
        declaring_dev(order, dev, cap, from + 1)
    }
}

fn group_does_declare(g: &CapGroup, cap: &CapUrn) -> (r: bool)
    ensures
        r == group_declares(*g, cap@),
{
    let mut i: usize = 0;
    while i < g.caps.len()
        invariant
            i <= g.caps@.len(),
            forall|j: int| 0 <= j < i ==> (#[trigger] g.caps@[j])@ != cap@,
        decreases g.caps@.len() - i,
    {
        if g.caps[i].is_equivalent(cap) {
            assert(g.caps@[i as int]@ == cap@);
            return true;
        }
        i = i + 1;
    }
    false
}

fn does_declare(m: &CapManifest, cap: &CapUrn) -> (r: bool)
    ensures
        r == declares(*m, cap@),
{
    let mut i: usize = 0;
    while i < m.cap_groups.len()
        invariant
            i <= m.cap_groups@.len(),
            forall|j: int| 0 <= j < i ==> !group_declares(#[trigger] m.cap_groups@[j], cap@),
        decreases m.cap_groups@.len() - i,
    {
        if group_does_declare(&m.cap_groups[i], cap) {
            assert(group_declares(m.cap_groups@[i as int], cap@));
            return true;
        }
        i = i + 1;
    }
    false
}

/// A binary and the id of its cartridge.
pub struct FoundBinary {
    pub path: String,
    pub cartridge_id: String,
}

/// A cartridge that was not found.
pub open spec fn not_found(e: ExecutionError, what: Seq<char>) -> bool {
    e matches ExecutionError::CartridgeNotFound { cap_urn } && cap_urn@ == what
}

impl CartridgeManager {
    /// The dev binary that serves a cap, where there is one; the registry is
    /// asked next.
    pub fn find_dev_binary(&self, cap_urn: &str) -> (r: Result<Option<FoundBinary>, ExecutionError>)
        ensures
            match urn::cap_parsed(cap_urn@) {
                Err(fault) => r is Err && not_found(
                    r->Err_0,
                    "Invalid URN: "@ + cap_urn@ + ": "@ + urn::fault_text(fault),
                ),
                Ok(cap) => {
                    let order = self.dev_cartridges.order();
                    let i = declaring_dev(order, self.dev_cartridges@, cap, 0);
                    &&& r is Ok
                    &&& match r->Ok_0 {
                        Some(found) => 0 <= i < order.len() && found.path@ == order[i]
                            && found.cartridge_id@ == "dev:"@ + order[i],
                        None => i >= order.len(),
                    }
                },
            },
            r matches Ok(Some(found)) ==> self.dev_cartridges@.contains_key(found.path@) && exists|
                g: int,
                c: int,
            |
                #![trigger self.dev_cartridges@[found.path@].cap_groups@[g].caps@[c]]
                0 <= g < self.dev_cartridges@[found.path@].cap_groups@.len() && 0 <= c
                    < self.dev_cartridges@[found.path@].cap_groups@[g].caps@.len()
                    && urn::cap_parsed(cap_urn@) == Ok::<urn::TagMap, urn::UrnFault>(
                    self.dev_cartridges@[found.path@].cap_groups@[g].caps@[c]@,
                ),
            r matches Ok(None) ==> forall|k: Seq<char>, g: int, c: int|
                #![trigger self.dev_cartridges@[k].cap_groups@[g].caps@[c]]
                self.dev_cartridges@.contains_key(k) && 0 <= g
                    < self.dev_cartridges@[k].cap_groups@.len() && 0 <= c
                    < self.dev_cartridges@[k].cap_groups@[g].caps@.len() ==> urn::cap_parsed(
                    cap_urn@,
                ) != Ok::<urn::TagMap, urn::UrnFault>(
                    self.dev_cartridges@[k].cap_groups@[g].caps@[c]@,
                ),
    {
        let requested = match CapUrn::from_string(cap_urn) {
            Ok(u) => u,
            Err(e) => {
                return Err(
                    ExecutionError::CartridgeNotFound {
                        cap_urn: "Invalid URN: ".to_owned().concat(cap_urn).concat(": ").concat(
                            e.detail().as_str(),
                        ),
                    },
                );
            },
        };
        let n: usize = self.dev_cartridges.len();
        let ghost order = self.dev_cartridges.order();
        let mut i: usize = 0;
        while i < n
            invariant
                order == self.dev_cartridges.order(),
                n == order.len(),
                i <= n,
                urn::cap_parsed(cap_urn@) == Ok::<urn::TagMap, urn::UrnFault>(requested@),
                declaring_dev(order, self.dev_cartridges@, requested@, 0) == declaring_dev(
                    order,
                    self.dev_cartridges@,
                    requested@,
                    i as int,
                ),
            decreases n - i,
        {
            if does_declare(self.dev_cartridges.value_at(i), &requested) {
                let path = self.dev_cartridges.key_at(i).clone();
                let cartridge_id = "dev:".to_owned().concat(path.as_str());
                proof {
                    let groups = self.dev_cartridges@[path@].cap_groups@;
                    let g = choose|g: int|
                        0 <= g < groups.len() && group_declares(#[trigger] groups[g], requested@);
                    let c = choose|c: int|
                        0 <= c < groups[g].caps@.len() && (#[trigger] groups[g].caps@[c])@
                            == requested@;
                    assert(self.dev_cartridges@[path@].cap_groups@[g].caps@[c]@ == requested@);
                }
                return Ok(Some(FoundBinary { path, cartridge_id }));
            }
            i = i + 1;
        }
        proof {
            crate::table::lemma_order_is_the_keys(self.dev_cartridges);
            assert forall|k: Seq<char>, g: int, c: int|
                #![trigger self.dev_cartridges@[k].cap_groups@[g].caps@[c]]
                self.dev_cartridges@.contains_key(k) && 0 <= g
                    < self.dev_cartridges@[k].cap_groups@.len() && 0 <= c
                    < self.dev_cartridges@[k].cap_groups@[g].caps@.len() implies
                self.dev_cartridges@[k].cap_groups@[g].caps@[c]@ != requested@ by {
                assert(order.contains(k));
                let x = choose|x: int| 0 <= x < order.len() && order[x] == k;
                lemma_declaring_dev(order, self.dev_cartridges@, requested@, 0);
                assert(!declares(self.dev_cartridges@[order[x]], requested@));
                assert(!group_declares(self.dev_cartridges@[k].cap_groups@[g], requested@));
            }
        }
        Ok(None)
    }
}

proof fn lemma_declaring_dev(
    order: Seq<Seq<char>>,
    dev: Map<Seq<char>, CapManifest>,
    cap: urn::TagMap,
    from: int,
)
    requires
        0 <= from <= order.len(),
    ensures
        from <= declaring_dev(order, dev, cap, from) <= order.len(),
        declaring_dev(order, dev, cap, from) < order.len() ==> declares(
            dev[order[declaring_dev(order, dev, cap, from)]],
            cap,
        ),
        forall|x: int|
            from <= x < declaring_dev(order, dev, cap, from) ==> !declares(
                dev[#[trigger] order[x]],
                cap,
            ),
    decreases order.len() - from,
{
    if from < order.len() && !declares(dev[order[from]], cap) {
        lemma_declaring_dev(order, dev, cap, from + 1);
    }
}

/// The cartridge to take of those that the registry suggests for a cap: the
/// first.
pub fn choose_suggestion(cap_urn: &str, suggestions: &Vec<String>) -> (r: Result<
    String,
    ExecutionError,
>)
    ensures
        match r {
            Ok(id) => suggestions@.len() > 0 && id == suggestions@[0],
            Err(e) => suggestions@.len() == 0 && not_found(e, cap_urn@),
        },
{
    if suggestions.len() == 0 {
        return Err(ExecutionError::CartridgeNotFound { cap_urn: cap_urn.to_owned() });
    }
    Ok(suggestions[0].clone())
}

/// One hostable cartridge: its entry-point binary, its identity where it is
/// known (absent for a registry install, which reports it once it runs), and
/// the cap groups that it serves.
pub struct HostableCartridge {
    pub path: String,
    pub identity: Option<(String, String, CartridgeChannel)>,
    pub cap_groups: Vec<CapGroup>,
}

/// Whether the groups are those of a cartridge that has not reported its own:
/// the identity cap alone, so that it can be spawned and probed on demand.
pub open spec fn identity_only(groups: Seq<CapGroup>, identity: CapUrn) -> bool {
    &&& groups.len() == 1
    &&& groups[0].name@ == "identity"@
    &&& groups[0].caps@.len() == 1
    &&& groups[0].caps@[0].text@ == identity.text@
    &&& groups[0].caps@[0]@ == identity@
    &&& groups[0].adapter_urns@.len() == 0
}

/// Whether `h` hosts a binary as this manager knows it: a dev binary with its
/// full declaration, anything else with the identity cap.
pub open spec fn hosts(
    m: CartridgeManager,
    h: HostableCartridge,
    path: Seq<char>,
    identity: CapUrn,
) -> bool {
    &&& h.path@ == path
    &&& if m.dev_cartridges@.contains_key(path) {
        same_groups(h.cap_groups@, m.dev_cartridges@[path].cap_groups@)
    } else {
        identity_only(h.cap_groups@, identity)
    }
    &&& match h.identity {
        Some((name, version, channel)) => {
            &&& m.dev_cartridges@.contains_key(path)
            &&& name == m.dev_cartridges@[path].name
            &&& version == m.dev_cartridges@[path].version
            &&& channel == m.dev_cartridges@[path].channel
        },
        None => !m.dev_cartridges@.contains_key(path),
    }
}

/// The paths of hostable cartridges.
pub open spec fn host_paths(v: Seq<HostableCartridge>) -> Seq<Seq<char>> {
    Seq::new(v.len(), |i: int| v[i].path@)
}

impl CartridgeManager {
    fn hostable(&self, path: String, identity_cap: &CapUrn) -> (h: HostableCartridge)
        ensures
            hosts(*self, h, path@, *identity_cap),
    {
        match self.dev_cartridges.get(path.as_str()) {
            Some(m) => {
                let identity = Some((m.name.clone(), m.version.clone(), m.channel));
                HostableCartridge { path, identity, cap_groups: clone_groups(&m.cap_groups) }
            },
            None => {
                let mut caps: Vec<CapUrn> = Vec::new();
                caps.push(identity_cap.clone());
                let mut cap_groups: Vec<CapGroup> = Vec::new();
                cap_groups.push(
                    CapGroup { name: "identity".to_owned(), caps, adapter_urns: Vec::new() },
                );
                HostableCartridge { path, identity: None, cap_groups }
            },
        }
    }

    /// The cartridges to host for a graph whose caps are served by `found`:
    /// every binary once, and ALL dev binaries — they may be needed for peer
    /// requests even if they don't appear in the graph. A dev binary comes with
    /// its full cap groups, so that every cap it declares is registered, not
    /// just those of the graph; any other with the identity cap, its own groups
    /// arrive once it runs.
    pub fn resolve_cartridges(&self, found: &Vec<String>, identity_cap: &CapUrn) -> (r: Vec<
        HostableCartridge,
    >)
        ensures
            host_paths(r@).no_duplicates(),
            forall|p: Seq<char>| #[trigger]
                host_paths(r@).contains(p) <==> text::views(found@).contains(p)
                    || self.dev_cartridges@.contains_key(p),
            forall|i: int| 0 <= i < r@.len() ==> hosts(
                *self,
                #[trigger] r@[i],
                r@[i].path@,
                *identity_cap,
            ),
    {
        let mut paths: Vec<String> = Vec::new();
        let ghost wanted = text::views(found@);
        let mut i: usize = 0;
        while i < found.len()
            invariant
                i <= found@.len(),
                wanted == text::views(found@),
                text::views(paths@).no_duplicates(),
                forall|p: Seq<char>| #[trigger]
                    text::views(paths@).contains(p) <==> wanted.take(i as int).contains(p),
            decreases found@.len() - i,
        {
            proof {
                crate::regions::lemma_take_more(wanted, i as int);
            }
            if !lists(&paths, found[i].as_str()) {
                let ghost before = text::views(paths@);
                paths.push(found[i].clone());
                proof {
                    assert(text::views(paths@) =~= before.push(wanted[i as int]));
                    crate::regions::lemma_push(before, wanted[i as int]);
                }
            }
            i = i + 1;
        }
        assert(wanted.take(i as int) =~= wanted);
        let n: usize = self.dev_cartridges.len();
        let ghost dev = self.dev_cartridges.order();
        let mut d: usize = 0;
        while d < n
            invariant
                dev == self.dev_cartridges.order(),
                n == dev.len(),
                d <= n,
                text::views(paths@).no_duplicates(),
                forall|p: Seq<char>| #[trigger]
                    text::views(paths@).contains(p) <==> wanted.contains(p) || dev.take(
                        d as int,
                    ).contains(p),
            decreases n - d,
        {
            proof {
                crate::regions::lemma_take_more(dev, d as int);
            }
            let path = self.dev_cartridges.key_at(d);
            if !lists(&paths, path.as_str()) {
                let ghost before = text::views(paths@);
                paths.push(path.clone());
                proof {
                    assert(text::views(paths@) =~= before.push(dev[d as int]));
                    crate::regions::lemma_push(before, dev[d as int]);
                }
            }
            d = d + 1;
        }
        assert(dev.take(d as int) =~= dev);
        let ghost names = text::views(paths@);
        let mut r: Vec<HostableCartridge> = Vec::new();
        let mut k: usize = 0;
        assert(host_paths(r@) =~= names.take(0));
        while k < paths.len()
            invariant
                k <= paths@.len(),
                names == text::views(paths@),
                host_paths(r@) == names.take(k as int),
                forall|x: int|
                    0 <= x < r@.len() ==> hosts(
                        *self,
                        #[trigger] r@[x],
                        r@[x].path@,
                        *identity_cap,
                    ),
            decreases paths@.len() - k,
        {
            let ghost before = host_paths(r@);
            r.push(self.hostable(paths[k].clone(), identity_cap));
            proof {
                assert(host_paths(r@) =~= before.push(names[k as int]));
                assert(names.take(k + 1) =~= names.take(k as int).push(names[k as int]));
            }
            k = k + 1;
        }
        assert(names.take(k as int) =~= names);
        r
    }
}

/// The stable id of the host of a set of cartridges: their paths, sorted. The
/// same set has the same id, so a reconnect reattaches in place.
pub fn host_id(paths: Vec<String>) -> (id: String)
    ensures
        exists|sorted: Seq<Seq<char>>| #[trigger]
            text::sorted(sorted) && sorted.to_multiset() == text::views(paths@).to_multiset()
                && id@ == "cartridge-host:"@ + text::join_text(sorted, "|"@),
{
    let sorted = sort(paths);
    let id = "cartridge-host:".to_owned().concat(join(&sorted, "|").as_str());
    assert(text::sorted(text::views(sorted@)));
    id
}

/// Hosts of the same cartridges, in whatever order, have the same id.
pub proof fn the_same_cartridges_have_one_host_id(a: Seq<Seq<char>>, b: Seq<Seq<char>>)
    requires
        text::sorted(a),
        text::sorted(b),
        a.to_multiset() == b.to_multiset(),
    ensures
        text::join_text(a, "|"@) == text::join_text(b, "|"@),
{
    let leq = |x: Seq<char>, y: Seq<char>| text::lex_le(x, y);
    assert(vstd::relations::total_ordering(leq)) by {
        assert forall|x: Seq<char>| #[trigger] leq(x, x) by {
            text::lemma_lex_le_total(x, x);
        }
        assert forall|x: Seq<char>, y: Seq<char>| #[trigger] leq(x, y) && #[trigger] leq(
            y,
            x,
        ) implies x == y by {
            text::lemma_lex_le_antisymmetric(x, y);
        }
        assert forall|x: Seq<char>, y: Seq<char>, z: Seq<char>| #[trigger] leq(
            x,
            y,
        ) && #[trigger] leq(y, z) implies leq(x, z) by {
            text::lemma_lex_le_transitive(x, y, z);
        }
        assert forall|x: Seq<char>, y: Seq<char>| #[trigger] leq(x, y) || #[trigger] leq(y, x) by {
            text::lemma_lex_le_total(x, y);
        }
    }
    vstd::seq_lib::lemma_sorted_unique(a, b, leq);
}

// ---------------------------------------------------------------------------
// Installed cartridges
// ---------------------------------------------------------------------------
/// The path of a dev cartridge id.
pub open spec fn dev_id_path(cartridge_id: Seq<char>) -> Option<Seq<char>> {
    if "dev:"@.is_prefix_of(cartridge_id) {
        Some(cartridge_id.subrange("dev:"@.len() as int, cartridge_id.len() as int))
    } else {
        None
    }
}

/// The path of a dev cartridge id, where it is one.
pub fn dev_path(cartridge_id: &str) -> (r: Option<String>)
    ensures
        text::opt_view(r) == dev_id_path(cartridge_id@),
{
    let id = chars_of(cartridge_id);
    let prefix = chars_of("dev:");
    if starts_with(&id, &prefix) {
        let n: usize = id.len();
        Some(string_of(&id, prefix.len(), n))
    } else {
        None
    }
}

/// A failure of the deployment, found by the engine.
pub open spec fn deployment_error(e: ExecutionError, cartridge_id: Seq<char>, details: Seq<char>) -> bool {
    e matches ExecutionError::CartridgeExecutionFailed {
        cap_urn,
        code,
        class,
        details: d,
        arg_urn,
    } && cap_urn@ == cartridge_id && code is None && class == AttributionClass::Environment && d@
        == details && arg_urn is None
}

fn deployment_failure(cartridge_id: &str, details: String) -> (e: ExecutionError)
    ensures
        deployment_error(e, cartridge_id@, details@),
{
    ExecutionError::CartridgeExecutionFailed {
        cap_urn: cartridge_id.to_owned(),
        code: None,
        class: AttributionClass::Environment,
        details,
        arg_urn: None,
    }
}

/// The failure of a dev binary that is not there — a deployment problem.
pub fn dev_binary_missing(cartridge_id: &str, path: &str) -> (e: ExecutionError)
    ensures
        deployment_error(
            e,
            cartridge_id@,
            "Dev binary not found: "@ + text::debug_str(path@),
        ),
{
    deployment_failure(
        cartridge_id,
        "Dev binary not found: ".to_owned().concat(string_debug(path).as_str()),
    )
}

/// Why a dev binary could not be asked what it declares.
pub enum ProbeFailure {
    Spawn(String),
    Handshake(String),
    Manifest(String),
}

/// The failure of a dev binary that cannot be asked what it declares. One that
/// does not spawn is a problem of the deployment.
pub fn probe_failed(failure: ProbeFailure) -> (e: ExecutionError)
    ensures
        match failure {
            ProbeFailure::Spawn(why) => deployment_error(
                e,
                "manifest-discovery"@,
                "Failed to spawn cartridge: "@ + why@,
            ),
            ProbeFailure::Handshake(why) => spool::host_error(e, "Handshake failed: "@ + why@),
            ProbeFailure::Manifest(why) => spool::host_error(e, "Bad manifest: "@ + why@),
        },
{
    match failure {
        ProbeFailure::Spawn(why) => deployment_failure(
            "manifest-discovery",
            "Failed to spawn cartridge: ".to_owned().concat(why.as_str()),
        ),
        ProbeFailure::Handshake(why) => ExecutionError::HostError(
            "Handshake failed: ".to_owned().concat(why.as_str()),
        ),
        ProbeFailure::Manifest(why) => ExecutionError::HostError(
            "Bad manifest: ".to_owned().concat(why.as_str()),
        ),
    }
}

impl CartridgeManager {
    /// The directory, below the root, that holds the installed versions of a
    /// cartridge: registry, registry version, channel, cartridge.
    pub fn install_path(&self, registry_slug: &str, registry_version: u64, cartridge_id: &str) -> (r:
        Vec<String>)
        ensures
            text::views(r@) == seq![
                self.cartridge_dir@,
                registry_slug@,
                "v"@ + text::decimal(registry_version as nat),
                channel_text(self.channel),
                cartridge_id@,
            ],
    {
        let mut r: Vec<String> = Vec::new();
        r.push(self.cartridge_dir.clone());
        r.push(registry_slug.to_owned());
        r.push("v".to_owned().concat(decimal_u64(registry_version).as_str()));
        r.push(self.channel.as_str().to_owned());
        r.push(cartridge_id.to_owned());
        assert(text::views(r@) =~= seq![
            self.cartridge_dir@,
            registry_slug@,
            "v"@ + text::decimal(registry_version as nat),
            channel_text(self.channel),
            cartridge_id@,
        ]);
        r
    }
}

/// The registry folder of an installed cartridge, four levels above its version
/// folder; `version_dir` lists the folders of that path.
pub fn registry_folder(version_dir: &Vec<String>) -> (r: Option<&String>)
    ensures
        match r {
            Some(slug) => version_dir@.len() >= 5 && *slug == version_dir@[version_dir@.len() - 5],
            None => version_dir@.len() < 5,
        },
{
    let n: usize = version_dir.len();
    if n >= 5 {
        Some(&version_dir[n - 5])
    } else {
        None
    }
}

/// One installed version of a cartridge.
pub struct InstalledVersion {
    pub version: String,
    pub channel: CartridgeChannel,
    pub registry_url: Option<String>,
    pub entry_point: String,
}

/// The numbers of a version: its dot-separated parts that are numbers.
pub open spec fn numbers(parts: Seq<Seq<char>>) -> Seq<nat>
    decreases parts.len(),
{
    if parts.len() == 0 {
        Seq::empty()
    } else {
        match text::parse_unsigned(parts.last(), u32::MAX as nat) {
            Some(n) => numbers(parts.drop_last()).push(n),
            None => numbers(parts.drop_last()),
        }
    }
}

pub open spec fn version_numbers(version: Seq<char>) -> Seq<nat> {
    numbers(text::split_on(version, '.'))
}

/// The number at a place of a version; a missing one is zero.
pub open spec fn number_at(v: Seq<nat>, i: int) -> nat {
    if 0 <= i < v.len() {
        v[i]
    } else {
        0
    }
}

/// Whether version `a` is newer than `b` from place `i` on, of `n` places.
pub open spec fn newer_from(a: Seq<nat>, b: Seq<nat>, i: int, n: int) -> bool
    decreases n - i,
{
    if i >= n {
        false
    } else if number_at(a, i) == number_at(b, i) {
        newer_from(a, b, i + 1, n)
    } else {
        number_at(a, i) > number_at(b, i)
    }
}

/// Whether version `a` is newer than version `b`.
pub open spec fn newer(a: Seq<char>, b: Seq<char>) -> bool {
    let x = version_numbers(a);
    let y = version_numbers(b);
    newer_from(
        x,
        y,
        0,
        (if x.len() >= y.len() {
            x.len()
        } else {
            y.len()
        }) as int,
    )
}

fn parse_version(version: &str) -> (r: Vec<u64>)
    ensures
        r@.len() == version_numbers(version@).len(),
        forall|i: int|
            0 <= i < r@.len() ==> #[trigger] r@[i] as nat == version_numbers(version@)[i],
{
    let parts = split(version, '.');
    let ghost all = text::views(parts@);
    let mut r: Vec<u64> = Vec::new();
    let mut i: usize = 0;
    assert(all.take(0) =~= Seq::<Seq<char>>::empty());
    while i < parts.len()
        invariant
            i <= parts@.len(),
            all == text::views(parts@),
            r@.len() == numbers(all.take(i as int)).len(),
            forall|j: int|
                0 <= j < r@.len() ==> #[trigger] r@[j] as nat == numbers(all.take(i as int))[j],
        decreases parts@.len() - i,
    {
        proof {
            assert(all.take(i + 1).drop_last() =~= all.take(i as int));
            assert(all.take(i + 1).last() == parts@[i as int]@);
        }
        if let Some(n) = parse_u64_bounded(parts[i].as_str(), 4294967295) {
            r.push(n);
        }
        i = i + 1;
    }
    assert(all.take(i as int) =~= all);
    r
}

fn is_newer(a: &str, b: &str) -> (r: bool)
    ensures
        r == newer(a@, b@),
        r <==> exists|i: int|
            #![trigger first_larger_at(version_numbers(a@), version_numbers(b@), i)]
            first_larger_at(version_numbers(a@), version_numbers(b@), i),
{
    proof {
        the_first_different_number_decides(a@, b@);
    }
    let x = parse_version(a);
    let y = parse_version(b);
    let ghost vx = version_numbers(a@);
    let ghost vy = version_numbers(b@);
    let n: usize = if x.len() >= y.len() {
        x.len()
    } else {
        y.len()
    };
    let mut i: usize = 0;
    while i < n
        invariant
            i <= n,
            vx == version_numbers(a@),
            vy == version_numbers(b@),
            n == if vx.len() >= vy.len() {
                vx.len()
            } else {
                vy.len()
            },
            x@.len() == vx.len(),
            y@.len() == vy.len(),
            forall|j: int| 0 <= j < x@.len() ==> #[trigger] x@[j] as nat == vx[j],
            forall|j: int| 0 <= j < y@.len() ==> #[trigger] y@[j] as nat == vy[j],
            newer_from(vx, vy, 0, n as int) == newer_from(vx, vy, i as int, n as int),
        decreases n - i,
    {
        let na: u64 = if i < x.len() {
            x[i]
        } else {
            0
        };
        let nb: u64 = if i < y.len() {
            y[i]
        } else {
            0
        };
        assert(na as nat == number_at(vx, i as int));
        assert(nb as nat == number_at(vy, i as int));
        if na != nb {
            proof {
                the_first_different_number_decides(a@, b@);
            }
            return na > nb;
        }
        i = i + 1;
    }
    false
}

/// Whether an installed version may be used: never one of a different channel
/// even if it landed under our channel's tree, nor one of another registry.
pub open spec fn usable(v: InstalledVersion, channel: CartridgeChannel, registry_url: Seq<char>) -> bool {
    v.channel == channel && text::opt_view(v.registry_url) == Some(registry_url)
}

impl CartridgeManager {
    fn may_use(&self, v: &InstalledVersion, registry_url: &str) -> (r: bool)
        ensures
            r == usable(*v, self.channel, registry_url@),
    {
        v.channel == self.channel && match &v.registry_url {
            Some(url) => same(url.as_str(), registry_url),
            None => false,
        }
    }

    /// The entry point of the latest installed version: of the usable ones, the
    /// first that no other is newer than. Mismatches are skipped, not deleted.
    pub fn latest_installed(&self, versions: &Vec<InstalledVersion>, registry_url: &str) -> (r:
        Option<String>)
        ensures
            match r {
                None => forall|i: int|
                    0 <= i < versions@.len() ==> !usable(
                        #[trigger] versions@[i],
                        self.channel,
                        registry_url@,
                    ),
                Some(entry) => exists|k: int|
                    #![trigger versions@[k]]
                    0 <= k < versions@.len() && usable(
                        versions@[k],
                        self.channel,
                        registry_url@,
                    ) && entry == versions@[k].entry_point && (forall|i: int|
                        0 <= i < versions@.len() && usable(
                            #[trigger] versions@[i],
                            self.channel,
                            registry_url@,
                        ) ==> !newer(versions@[i].version@, versions@[k].version@) && (i < k
                            ==> newer(versions@[k].version@, versions@[i].version@))),
            },
            r is Some <==> exists|k: int|
                0 <= k < versions@.len() && (#[trigger] versions@[k]).channel == self.channel
                    && versions@[k].registry_url is Some && versions@[k].registry_url->Some_0@
                    == registry_url@,
            r is Some ==> exists|k: int|
                0 <= k < versions@.len() && (#[trigger] versions@[k]).channel == self.channel
                    && versions@[k].registry_url is Some && versions@[k].registry_url->Some_0@
                    == registry_url@ && r->Some_0 == versions@[k].entry_point,
    {
        let mut best: Option<usize> = None;
        let mut i: usize = 0;
        while i < versions.len()
            invariant
                i <= versions@.len(),
                match best {
                    None => forall|j: int|
                        0 <= j < i ==> !usable(
                            #[trigger] versions@[j],
                            self.channel,
                            registry_url@,
                        ),
                    Some(k) => {
                        &&& k < i
                        &&& usable(versions@[k as int], self.channel, registry_url@)
                        &&& forall|j: int|
                            0 <= j < i && usable(
                                #[trigger] versions@[j],
                                self.channel,
                                registry_url@,
                            ) ==> !newer(versions@[j].version@, versions@[k as int].version@) && (j
                                < k ==> newer(versions@[k as int].version@, versions@[j].version@))
                    },
                },
            decreases versions@.len() - i,
        {
            if self.may_use(&versions[i], registry_url) {
                match best {
                    None => {
                        proof {
                            lemma_not_newer_than_itself(versions@[i as int].version@);
                        }
                        best = Some(i);
                    },
                    Some(k) => {
                        if is_newer(versions[i].version.as_str(), versions[k].version.as_str()) {
                            proof {
                                assert forall|j: int|
                                    0 <= j < i + 1 && usable(
                                        #[trigger] versions@[j],
                                        self.channel,
                                        registry_url@,
                                    ) implies !newer(
                                    versions@[j].version@,
                                    versions@[i as int].version@,
                                ) && (j < i ==> newer(
                                    versions@[i as int].version@,
                                    versions@[j].version@,
                                )) by {
                                    if j == i {
                                        lemma_not_newer_than_itself(versions@[i as int].version@);
                                    } else {
                                        lemma_newer_than_the_rest(
                                            versions@[i as int].version@,
                                            versions@[k as int].version@,
                                            versions@[j].version@,
                                        );
                                        lemma_newer_is_one_way(
                                            versions@[i as int].version@,
                                            versions@[j].version@,
                                        );
                                    }
                                }
                            }
                            best = Some(i);
                        }
                    },
                }
            }
            i = i + 1;
        }
        match best {
            Some(k) => Some(versions[k].entry_point.clone()),
            None => None,
        }
    }
}

proof fn lemma_newer_from_pad(a: Seq<nat>, b: Seq<nat>, i: int, n: int, m: int)
    requires
        0 <= i,
        a.len() <= n <= m,
        b.len() <= n,
    ensures
        newer_from(a, b, i, n) == newer_from(a, b, i, m),
    decreases m - i,
{
    if i < n {
        lemma_newer_from_pad(a, b, i + 1, n, m);
    } else if i < m {
        lemma_newer_from_pad(a, b, i + 1, n, m);
    }
}

proof fn lemma_newer_from_chain(a: Seq<nat>, b: Seq<nat>, c: Seq<nat>, i: int, n: int)
    requires
        newer_from(a, b, i, n),
        !newer_from(c, b, i, n),
    ensures
        newer_from(a, c, i, n),
    decreases n - i,
{
    if i < n && number_at(a, i) == number_at(b, i) && number_at(c, i) == number_at(b, i) {
        lemma_newer_from_chain(a, b, c, i + 1, n);
    }
}

proof fn lemma_newer_from_one_way(a: Seq<nat>, b: Seq<nat>, i: int, n: int)
    requires
        newer_from(a, b, i, n),
    ensures
        !newer_from(b, a, i, n),
    decreases n - i,
{
    if i < n && number_at(a, i) == number_at(b, i) {
        lemma_newer_from_one_way(a, b, i + 1, n);
    }
}

proof fn lemma_not_newer_from_itself(a: Seq<nat>, i: int, n: int)
    ensures
        !newer_from(a, a, i, n),
    decreases n - i,
{
    if i < n {
        lemma_not_newer_from_itself(a, i + 1, n);
    }
}

proof fn lemma_not_newer_than_itself(a: Seq<char>)
    ensures
        !newer(a, a),
{
    lemma_not_newer_from_itself(version_numbers(a), 0, version_numbers(a).len() as int);
}

proof fn lemma_newer_is_one_way(a: Seq<char>, b: Seq<char>)
    requires
        newer(a, b),
    ensures
        !newer(b, a),
{
    let x = version_numbers(a);
    let y = version_numbers(b);
    let n = (if x.len() >= y.len() {
        x.len()
    } else {
        y.len()
    }) as int;
    lemma_newer_from_one_way(x, y, 0, n);
}

/// What is newer than a version that no other is newer than is newer than all.
proof fn lemma_newer_than_the_rest(a: Seq<char>, b: Seq<char>, c: Seq<char>)
    requires
        newer(a, b),
        !newer(c, b),
    ensures
        newer(a, c),
{
    let x = version_numbers(a);
    let y = version_numbers(b);
    let z = version_numbers(c);
    let m = (x.len() + y.len() + z.len()) as int;
    let xy = (if x.len() >= y.len() {
        x.len()
    } else {
        y.len()
    }) as int;
    let zy = (if z.len() >= y.len() {
        z.len()
    } else {
        y.len()
    }) as int;
    let xz = (if x.len() >= z.len() {
        x.len()
    } else {
        z.len()
    }) as int;
    lemma_newer_from_pad(x, y, 0, xy, m);
    lemma_newer_from_pad(z, y, 0, zy, m);
    lemma_newer_from_pad(x, z, 0, xz, m);
    lemma_newer_from_chain(x, y, z, 0, m);
}

// ---------------------------------------------------------------------------
// What the registry publishes
// ---------------------------------------------------------------------------
/// A published pure-binary artifact.
pub struct CartridgeBinaryInfo {
    pub url: String,
    pub sha256: String,
    pub size: u64,
    pub signature: String,
}

/// A published build: its platform, and its binary where it has one.
pub struct CartridgeBuild {
    pub platform: String,
    pub binary: Option<CartridgeBinaryInfo>,
}

/// A registry's entry for a cartridge.
pub struct CartridgeInfo {
    pub version: String,
    pub builds: Vec<CartridgeBuild>,
}

/// The first build at or after `from` for a platform, or the number of builds
/// where there is none.
pub open spec fn build_index(builds: Seq<CartridgeBuild>, platform: Seq<char>, from: int) -> int
    decreases builds.len() - from,
{
    if from >= builds.len() {
        builds.len() as int
    } else if builds[from].platform@ == platform {
        from
    } else {
        build_index(builds, platform, from + 1)
    }
}

/// The platforms that builds are for.
pub open spec fn platforms(builds: Seq<CartridgeBuild>) -> Seq<Seq<char>> {
    Seq::new(builds.len(), |i: int| builds[i].platform@)
}

fn available_platforms(info: &CartridgeInfo) -> (r: Vec<String>)
    ensures
        text::views(r@) == platforms(info.builds@),
{
    let ghost all = platforms(info.builds@);
    let mut r: Vec<String> = Vec::new();
    let mut i: usize = 0;
    assert(text::views(r@) =~= all.take(0));
    while i < info.builds.len()
        invariant
            i <= info.builds@.len(),
            all == platforms(info.builds@),
            text::views(r@) == all.take(i as int),
        decreases info.builds@.len() - i,
    {
        let ghost before = text::views(r@);
        r.push(info.builds[i].platform.clone());
        proof {
            assert(text::views(r@) =~= before.push(all[i as int]));
            assert(all.take(i + 1) =~= all.take(i as int).push(all[i as int]));
        }
        i = i + 1;
    }
    assert(all.take(i as int) =~= all);
    r
}

pub open spec fn not_published_text(id: Seq<char>, channel: CartridgeChannel) -> Seq<char> {
    "Cartridge "@ + id + " not found in "@ + channel_text(channel) + " registry"@
}

pub open spec fn no_build_text(id: Seq<char>, info: CartridgeInfo, platform: Seq<char>) -> Seq<char> {
    "Cartridge "@ + id + " v"@ + info.version@ + " has no build for platform '"@ + platform
        + "'. Available: "@ + text::debug_list(platforms(info.builds@))
}

pub open spec fn no_binary_text(id: Seq<char>, info: CartridgeInfo, platform: Seq<char>) -> Seq<char> {
    "Cartridge "@ + id + " v"@ + info.version@ + " for '"@ + platform
        + "' publishes no signed pure-binary artifact — refusing installer fallback. Re-publish the version under the signing regime: a published release build of cartridge "@
        + id + "."@
}

impl CartridgeManager {
    /// The published binary for the host platform, or the hard error for a
    /// build that publishes none. There is NO installer fallback. `entry` is
    /// the registry's entry for the cartridge.
    pub fn registry_binary_info<'a>(
        &self,
        cartridge_id: &str,
        entry: Option<&'a CartridgeInfo>,
        platform: &str,
    ) -> (r: Result<(&'a CartridgeInfo, &'a CartridgeBinaryInfo), ExecutionError>)
        ensures
            match entry {
                None => r is Err && not_found(
                    r->Err_0,
                    not_published_text(cartridge_id@, self.channel),
                ),
                Some(info) => {
                    let i = build_index(info.builds@, platform@, 0);
                    if i >= info.builds@.len() {
                        r is Err && download_error(
                            r->Err_0,
                            no_build_text(cartridge_id@, *info, platform@),
                        )
                    } else {
                        match info.builds@[i].binary {
                            None => r is Err && download_error(
                                r->Err_0,
                                no_binary_text(cartridge_id@, *info, platform@),
                            ),
                            Some(binary) => r is Ok && *r->Ok_0.0 == *info && *r->Ok_0.1 == binary,
                        }
                    }
                },
            },
            r is Ok ==> entry is Some && exists|i: int|
                #![trigger entry->0.builds@[i]]
                0 <= i < entry->0.builds@.len() && entry->0.builds@[i].platform@ == platform@
                    && entry->0.builds@[i].binary == Some(*r->Ok_0.1) && (forall|j: int|
                    0 <= j < i ==> (#[trigger] entry->0.builds@[j]).platform@ != platform@),
    {
        let info = match entry {
            Some(i) => i,
            None => {
                return Err(
                    ExecutionError::CartridgeNotFound {
                        cap_urn: "Cartridge ".to_owned().concat(cartridge_id).concat(
                            " not found in ",
                        ).concat(self.channel.as_str()).concat(" registry"),
                    },
                );
            },
        };
        let mut i: usize = 0;
        while i < info.builds.len() && !same(info.builds[i].platform.as_str(), platform)
            invariant
                i <= info.builds@.len(),
                build_index(info.builds@, platform@, 0) == build_index(
                    info.builds@,
                    platform@,
                    i as int,
                ),
            decreases info.builds@.len() - i,
        {
            i = i + 1;
        }
        if i >= info.builds.len() {
            let available = available_platforms(info);
            return Err(
                ExecutionError::CartridgeDownloadFailed(
                    "Cartridge ".to_owned().concat(cartridge_id).concat(" v").concat(
                        info.version.as_str(),
                    ).concat(" has no build for platform '").concat(platform).concat(
                        "'. Available: ",
                    ).concat(list_debug(&available).as_str()),
                ),
            );
        }
        proof {
            lemma_build_index(info.builds@, platform@, 0);
        }
        match &info.builds[i].binary {
            Some(binary) => Ok((info, binary)),
            None => Err(
                ExecutionError::CartridgeDownloadFailed(
                    "Cartridge ".to_owned().concat(cartridge_id).concat(" v").concat(
                        info.version.as_str(),
                    ).concat(" for '").concat(platform).concat(
                        "' publishes no signed pure-binary artifact — refusing installer fallback. Re-publish the version under the signing regime: a published release build of cartridge ",
                    ).concat(cartridge_id).concat("."),
                ),
            ),
        }
    }
}

// ---------------------------------------------------------------------------
// Verification
// ---------------------------------------------------------------------------
/// The SHA-256 digest of bytes, in lower-case hexadecimal.
pub uninterp spec fn sha256_hex(data: Seq<u8>) -> Seq<char>;

/// `sha2::Sha256::digest`, printed with `{:x}`: the digest of the bytes. That it
/// is a function of the bytes alone is all that is stated of it.
#[verifier::external_body]
fn sha256_of(data: &[u8]) -> (r: String)
    ensures
        r@ == sha256_hex(data@),
{
    format!("{:x}", sha2::Sha256::digest(data))
}

/// What checking the binary's signature under each release key gave.
pub type SignatureChecks = Vec<Result<(), String>>;

/// Whether a signature verified under some key.
pub open spec fn any_verified(checks: Seq<Result<(), String>>) -> bool {
    exists|i: int| 0 <= i < checks.len() && (#[trigger] checks[i]) is Ok
}

pub open spec fn hash_mismatch_text(id: Seq<char>, expected: Seq<char>, computed: Seq<char>) -> Seq<char> {
    "SECURITY: SHA256 mismatch for "@ + id + "!\n  Expected: "@ + expected + "\n  Computed: "@
        + computed
}

pub open spec fn size_mismatch_text(id: Seq<char>, expected: nat, got: nat) -> Seq<char> {
    "SECURITY: size mismatch for "@ + id + " (manifest says "@ + text::decimal(expected)
        + " bytes, got "@ + text::decimal(got) + ")"@
}

pub open spec fn no_keys_text(registry_url: Seq<char>, id: Seq<char>) -> Seq<char> {
    "SECURITY: no certificate-authorized release keys for registry '"@ + registry_url
        + "' — the manifest signature sidecar was never verified; refusing to trust "@ + id
        + "'s binary signature"@
}

pub open spec fn bad_signature_text(
    id: Seq<char>,
    keys: nat,
    registry_url: Seq<char>,
    last: Seq<char>,
) -> Seq<char> {
    "SECURITY: binary signature for "@ + id + " does not verify under any of the "@ + text::decimal(
        keys,
    ) + " certificate-authorized release key(s) of registry '"@ + registry_url + "': "@ + last
}

/// Why bytes may not run, or `None`: trust, digest, size and a signature under
/// an authorized release key must all hold.
pub open spec fn verification_fault(
    trusted: bool,
    registry_url: Seq<char>,
    id: Seq<char>,
    binary: CartridgeBinaryInfo,
    computed: Seq<char>,
    len: nat,
    checks: Seq<Result<(), String>>,
) -> Option<Seq<char>> {
    if !trusted {
        Some(no_trust_text(id))
    } else if computed != binary.sha256@ {
        Some(hash_mismatch_text(id, binary.sha256@, computed))
    } else if len != binary.size {
        Some(size_mismatch_text(id, binary.size as nat, len))
    } else if checks.len() == 0 {
        Some(no_keys_text(registry_url, id))
    } else if !any_verified(checks) {
        Some(bad_signature_text(id, checks.len(), registry_url, checks.last()->Err_0@))
    } else {
        None
    }
}

impl CartridgeManager {
    /// Check bytes of the given digest and length against a manifest's binary
    /// entry. Every failure is a hard, named error.
    pub fn check_binary(
        &self,
        registry_url: &str,
        cartridge_id: &str,
        binary: &CartridgeBinaryInfo,
        computed: &str,
        len: usize,
        checks: &SignatureChecks,
    ) -> (r: Result<(), ExecutionError>)
        ensures
            match verification_fault(
                self.trusted,
                registry_url@,
                cartridge_id@,
                *binary,
                computed@,
                len as nat,
                checks@,
            ) {
                None => r is Ok,
                Some(text) => r is Err && download_error(r->Err_0, text),
            },
            r is Ok <==> self.trusted && computed@ == binary.sha256@ && len as nat == binary.size
                && exists|i: int| 0 <= i < checks@.len() && (#[trigger] checks@[i]) is Ok,
    {
        match self.trust_required(cartridge_id) {
            Ok(_) => {},
            Err(e) => {
                return Err(e);
            },
        }
        if !same(computed, binary.sha256.as_str()) {
            return Err(
                ExecutionError::CartridgeDownloadFailed(
                    "SECURITY: SHA256 mismatch for ".to_owned().concat(cartridge_id).concat(
                        "!\n  Expected: ",
                    ).concat(binary.sha256.as_str()).concat("\n  Computed: ").concat(computed),
                ),
            );
        }
        if len as u64 != binary.size {
            return Err(
                ExecutionError::CartridgeDownloadFailed(
                    "SECURITY: size mismatch for ".to_owned().concat(cartridge_id).concat(
                        " (manifest says ",
                    ).concat(decimal_u64(binary.size).as_str()).concat(" bytes, got ").concat(
                        decimal_usize(len).as_str(),
                    ).concat(")"),
                ),
            );
        }
        let n: usize = checks.len();
        if n == 0 {
            return Err(
                ExecutionError::CartridgeDownloadFailed(
                    "SECURITY: no certificate-authorized release keys for registry '".to_owned().concat(
                    registry_url).concat(
                        "' — the manifest signature sidecar was never verified; refusing to trust ",
                    ).concat(cartridge_id).concat("'s binary signature"),
                ),
            );
        }
        let mut i: usize = 0;
        while i < n
            invariant
                n == checks@.len(),
                0 < n,
                i <= n,
                self.trusted,
                computed@ == binary.sha256@,
                len == binary.size,
                forall|j: int| 0 <= j < i ==> (#[trigger] checks@[j]) is Err,
            decreases n - i,
        {
            if checks[i].is_ok() {
                assert(checks@[i as int] is Ok);
                return Ok(());
            }
            i = i + 1;
        }
        let last = match &checks[n - 1] {
            Err(why) => why.as_str(),
            Ok(_) => "",
        };
        Err(
            ExecutionError::CartridgeDownloadFailed(
                "SECURITY: binary signature for ".to_owned().concat(cartridge_id).concat(
                    " does not verify under any of the ",
                ).concat(decimal_usize(n).as_str()).concat(
                    " certificate-authorized release key(s) of registry '",
                ).concat(registry_url).concat("': ").concat(last),
            ),
        )
    }

    /// Verify `bytes` against a manifest `binary` entry: sha256, size, and the
    /// signature under a certificate-authorized release key, as `checks` gives
    /// it for every key.
    pub fn verify_binary_against_manifest(
        &self,
        registry_url: &str,
        cartridge_id: &str,
        binary: &CartridgeBinaryInfo,
        bytes: &[u8],
        checks: &SignatureChecks,
    ) -> (r: Result<(), ExecutionError>)
        ensures
            match verification_fault(
                self.trusted,
                registry_url@,
                cartridge_id@,
                *binary,
                sha256_hex(bytes@),
                bytes@.len(),
                checks@,
            ) {
                None => r is Ok,
                Some(text) => r is Err && download_error(r->Err_0, text),
            },
            r is Ok <==> self.trusted && sha256_hex(bytes@) == binary.sha256@ && bytes@.len() == binary.size
                && exists|i: int| 0 <= i < checks@.len() && (#[trigger] checks@[i]) is Ok,
    {
        let computed = sha256_of(bytes);
        self.check_binary(
            registry_url,
            cartridge_id,
            binary,
            computed.as_str(),
            bytes.len(),
            checks,
        )
    }
}

/// Bytes that pass verification are the published ones — their digest and
/// size — and are signed under an authorized key: nothing else may run.
pub proof fn only_published_signed_bytes_run(
    trusted: bool,
    registry_url: Seq<char>,
    id: Seq<char>,
    binary: CartridgeBinaryInfo,
    bytes: Seq<u8>,
    checks: Seq<Result<(), String>>,
)
    ensures
        verification_fault(
            trusted,
            registry_url,
            id,
            binary,
            sha256_hex(bytes),
            bytes.len(),
            checks,
        ) is None <==> trusted && sha256_hex(bytes) == binary.sha256@ && bytes.len() == binary.size
            && exists|i: int| 0 <= i < checks.len() && (#[trigger] checks[i]) is Ok,
{
}

/// The failure of an installed binary that cannot be read.
pub fn unreadable_install(cartridge_id: &str, path: &str, why: &str) -> (e: ExecutionError)
    ensures
        deployment_error(
            e,
            cartridge_id@,
            "failed to read installed binary "@ + text::debug_str(path@)
                + " for integrity verification: "@ + why@,
        ),
{
    deployment_failure(
        cartridge_id,
        "failed to read installed binary ".to_owned().concat(string_debug(path).as_str()).concat(
            " for integrity verification: ",
        ).concat(why),
    )
}

/// What an installed binary that failed verification is: a tampered or
/// mismatched binary is a deployment problem.
pub fn integrity_failed(cartridge_id: &str, path: &str, cause: &ExecutionError) -> (e:
    ExecutionError)
    ensures
        deployment_error(
            e,
            cartridge_id@,
            "installed binary at "@ + text::debug_str(path@)
                + " failed integrity verification: "@ + executor_error::error_text(*cause),
        ),
{
    deployment_failure(
        cartridge_id,
        "installed binary at ".to_owned().concat(string_debug(path).as_str()).concat(
            " failed integrity verification: ",
        ).concat(cause.message().as_str()),
    )
}

/// What to do about an installed binary.
pub enum InstalledAction {
    /// It verified: run it.
    Use,
    /// It failed verification and is gone: download it afresh, through the
    /// same verification.
    Download,
    /// It failed verification and could not be removed: the failure stands.
    Fail(ExecutionError),
}

/// Decide about an installed binary, from its verification and — where that
/// failed — whether the stale install was removed. Unverified bytes never run.
pub fn after_verification(verified: Result<(), ExecutionError>, removed: bool) -> (a:
    InstalledAction)
    ensures
        match verified {
            Ok(()) => a is Use,
            Err(e) => if removed {
                a is Download
            } else {
                a == InstalledAction::Fail(e)
            },
        },
{
    match verified {
        Ok(_) => InstalledAction::Use,
        Err(e) => if removed {
            InstalledAction::Download
        } else {
            InstalledAction::Fail(e)
        },
    }
}

// ---------------------------------------------------------------------------
// Download and provenance
// ---------------------------------------------------------------------------
/// The URL to fetch a binary from: the published one with the digest appended,
/// which keys any cache to the CONTENT.
pub fn download_url(binary: &CartridgeBinaryInfo) -> (r: String)
    ensures
        r@ == binary.url@ + (if binary.url@.contains('?') {
            "&"@
        } else {
            "?"@
        }) + "sha256="@ + binary.sha256@,
{
    let mark = if contains_char(binary.url.as_str(), '?') {
        "&"
    } else {
        "?"
    };
    binary.url.clone().concat(mark).concat("sha256=").concat(binary.sha256.as_str())
}

/// How a download failed.
pub enum DownloadFailure {
    Request(String),
    Status { status: String, url: String },
    Body(String),
    Record(String),
}

/// The failure of a download.
pub fn download_failed(failure: DownloadFailure) -> (e: ExecutionError)
    ensures
        download_error(
            e,
            match failure {
                DownloadFailure::Request(why) => "Download failed: "@ + why@,
                DownloadFailure::Status { status, url } => "HTTP "@ + status@ + " from "@ + url@,
                DownloadFailure::Body(why) => "Read failed: "@ + why@,
                DownloadFailure::Record(why) => "Failed to write cartridge.json: "@ + why@,
            },
        ),
{
    ExecutionError::CartridgeDownloadFailed(
        match failure {
            DownloadFailure::Request(why) => "Download failed: ".to_owned().concat(why.as_str()),
            DownloadFailure::Status { status, url } => "HTTP ".to_owned().concat(
                status.as_str(),
            ).concat(" from ").concat(url.as_str()),
            DownloadFailure::Body(why) => "Read failed: ".to_owned().concat(why.as_str()),
            DownloadFailure::Record(why) => "Failed to write cartridge.json: ".to_owned().concat(
                why.as_str(),
            ),
        },
    )
}

/// The file name of a cartridge's binary.
pub fn platform_binary_name(cartridge_id: &str, windows: bool) -> (r: String)
    ensures
        r@ == if windows {
            cartridge_id@ + ".exe"@
        } else {
            cartridge_id@
        },
{
    if windows {
        cartridge_id.to_owned().concat(".exe")
    } else {
        cartridge_id.to_owned()
    }
}

/// The provenance record of an installed cartridge.
pub struct CartridgeRecord {
    pub name: String,
    pub version: String,
    pub channel: CartridgeChannel,
    pub registry_url: Option<String>,
    pub entry: String,
    pub installed_at: String,
    /// The URL the publisher committed to, not the content-keyed fetch URL.
    pub source_url: String,
    pub package_sha256: String,
    pub package_size: u64,
    pub fabric_manifest_version: u32,
}

impl CartridgeManager {
    /// The provenance record of a cartridge that was downloaded from this
    /// manager's registry. Digest and size describe the binary.
    pub fn provenance(
        &self,
        cartridge_id: &str,
        registry_url: &str,
        info: &CartridgeInfo,
        binary: &CartridgeBinaryInfo,
        entry: String,
        installed_at: String,
    ) -> (r: CartridgeRecord)
        ensures
            r.name@ == cartridge_id@,
            r.version == info.version,
            r.channel == self.channel,
            text::opt_view(r.registry_url) == Some(registry_url@),
            r.entry == entry,
            r.installed_at == installed_at,
            r.source_url == binary.url,
            r.package_sha256 == binary.sha256,
            r.package_size == binary.size,
            r.fabric_manifest_version == self.fabric_manifest_version,
    {
        CartridgeRecord {
            name: cartridge_id.to_owned(),
            version: info.version.clone(),
            channel: self.channel,
            registry_url: Some(registry_url.to_owned()),
            entry,
            installed_at,
            source_url: binary.url.clone(),
            package_sha256: binary.sha256.clone(),
            package_size: binary.size,
            fabric_manifest_version: self.fabric_manifest_version,
        }
    }
}

// ---------------------------------------------------------------------------
// Hosting
// ---------------------------------------------------------------------------
/// A bundled cartridge, as discovery found it.
pub enum DiscoveredCartridge {
    Directory {
        entry_point: String,
        id: String,
        version: String,
        channel: CartridgeChannel,
        cap_groups: Vec<CapGroup>,
    },
    /// Rejected by discovery, which surfaced the reason.
    Incompatible { id: String, version: String, reason: String },
}

/// The hostable cartridge that a discovered one is.
pub open spec fn hosted_as(d: DiscoveredCartridge, h: HostableCartridge) -> bool {
    d matches DiscoveredCartridge::Directory { entry_point, id, version, channel, cap_groups } && h
        == (HostableCartridge {
        path: entry_point,
        identity: Some((id, version, channel)),
        cap_groups,
    })
}

/// The compatible ones of discovered cartridges.
pub open spec fn compatible_ones(found: Seq<DiscoveredCartridge>) -> Seq<DiscoveredCartridge>
    decreases found.len(),
{
    if found.len() == 0 {
        Seq::empty()
    } else if found.last() is Directory {
        compatible_ones(found.drop_last()).push(found.last())
    } else {
        compatible_ones(found.drop_last())
    }
}

/// The bundled cartridges to host: incompatible ones are skipped.
pub fn bundled_cartridges(found: Vec<DiscoveredCartridge>) -> (r: Vec<HostableCartridge>)
    ensures
        r@.len() == compatible_ones(found@).len(),
        forall|i: int|
            0 <= i < r@.len() ==> hosted_as(compatible_ones(found@)[i], #[trigger] r@[i]),
{
    let ghost all = found@;
    let mut rest = found;
    let mut r: Vec<HostableCartridge> = Vec::new();
    let ghost mut k: int = 0;
    proof {
        assert(all.skip(0) =~= all);
        assert(all.take(0) =~= Seq::<DiscoveredCartridge>::empty());
    }
    while rest.len() > 0
        invariant
            0 <= k <= all.len(),
            rest@ == all.skip(k),
            r@.len() == compatible_ones(all.take(k)).len(),
            forall|i: int|
                0 <= i < r@.len() ==> hosted_as(compatible_ones(all.take(k))[i], #[trigger] r@[i]),
        decreases rest@.len(),
    {
        let d = rest.remove(0);
        proof {
            assert(rest@ =~= all.skip(k + 1));
            assert(d == all[k]);
            assert(all.take(k + 1).drop_last() =~= all.take(k));
            assert(all.take(k + 1).last() == d);
        }
        match d {
            DiscoveredCartridge::Directory { entry_point, id, version, channel, cap_groups } => {
                r.push(
                    HostableCartridge {
                        path: entry_point,
                        identity: Some((id, version, channel)),
                        cap_groups,
                    },
                );
            },
            DiscoveredCartridge::Incompatible { .. } => {},
        }
        proof {
            k = k + 1;
        }
    }
    assert(all.take(k) =~= all);
    r
}

/// The failure of a discovery.
pub fn discovery_failed(why: &str) -> (e: ExecutionError)
    ensures
        spool::host_error(e, "bundled cartridge discovery failed: "@ + why@),
{
    ExecutionError::HostError("bundled cartridge discovery failed: ".to_owned().concat(why))
}

/// What stands beside a cartridge binary.
pub enum InstallRecord {
    /// The binary has no parent directory.
    NoParent,
    /// No record: a dev binary.
    Absent,
    /// A record outside of an install tree.
    NoTree,
    /// A record that does not read.
    Unreadable(String),
    Read { name: String, version: String, channel: CartridgeChannel, registry_url: Option<String> },
}

/// The identity under which a cartridge is registered.
pub struct CartridgeIdentity {
    pub name: String,
    pub version: String,
    pub channel: CartridgeChannel,
    pub registry_url: Option<String>,
}

/// Why a cartridge has no identity.
pub open spec fn identity_fault(
    path: Seq<char>,
    record: InstallRecord,
    manifest: Option<(String, String, CartridgeChannel)>,
) -> Option<Seq<char>> {
    match record {
        InstallRecord::NoParent => Some(
            "cartridge binary "@ + path + " has no parent directory"@,
        ),
        InstallRecord::NoTree => Some(
            "cartridge path "@ + path
                + " is not under a valid {slug}/v{registry_version}/{channel}/{name}/{version}/ tree"@,
        ),
        InstallRecord::Unreadable(why) => Some(
            "reading cartridge.json for "@ + path + ": "@ + why@,
        ),
        InstallRecord::Absent => if manifest is None {
            Some(
                "dev binary "@ + path
                    + " has no manifest identity (discover_manifest should have populated this)"@,
            )
        } else {
            None
        },
        InstallRecord::Read { .. } => None,
    }
}

/// The identity of a cartridge: an installed one has a provenance record beside
/// its binary, a dev binary what it reported itself — anything else fails hard,
/// never guessed.
pub fn cartridge_identity(
    path: &str,
    record: InstallRecord,
    manifest: Option<(String, String, CartridgeChannel)>,
) -> (r: Result<CartridgeIdentity, ExecutionError>)
    ensures
        match identity_fault(path@, record, manifest) {
            Some(text) => r is Err && spool::host_error(r->Err_0, text),
            None => {
                &&& r is Ok
                &&& match record {
                    InstallRecord::Read { name, version, channel, registry_url } => r->Ok_0 == (
                    CartridgeIdentity { name, version, channel, registry_url }),
                    _ => match manifest {
                        Some((name, version, channel)) => r->Ok_0 == (CartridgeIdentity {
                            name,
                            version,
                            channel,
                            registry_url: None,
                        }),
                        None => false,
                    },
                }
            },
        },
{
    let message = match record {
        InstallRecord::Read { name, version, channel, registry_url } => {
            return Ok(CartridgeIdentity { name, version, channel, registry_url });
        },
        InstallRecord::Absent => match manifest {
            Some((name, version, channel)) => {
                return Ok(CartridgeIdentity { name, version, channel, registry_url: None });
            },
            None => "dev binary ".to_owned().concat(path).concat(
                " has no manifest identity (discover_manifest should have populated this)",
            ),
        },
        InstallRecord::NoParent => "cartridge binary ".to_owned().concat(path).concat(
            " has no parent directory",
        ),
        InstallRecord::NoTree => "cartridge path ".to_owned().concat(path).concat(
            " is not under a valid {slug}/v{registry_version}/{channel}/{name}/{version}/ tree",
        ),
        InstallRecord::Unreadable(why) => "reading cartridge.json for ".to_owned().concat(
            path,
        ).concat(": ").concat(why.as_str()),
    };
    Err(ExecutionError::HostError(message))
}

/// Whether the numbers `x` are larger than `y` at place `i`, and the same at every
/// place before it; a missing number of `y` is zero.
pub open spec fn first_larger_at(x: Seq<nat>, y: Seq<nat>, i: int) -> bool {
    &&& 0 <= i < x.len()
    &&& x[i] > (if i < y.len() {
        y[i]
    } else {
        0
    })
    &&& forall|j: int|
        0 <= j < i ==> #[trigger] x[j] == (if j < y.len() {
            y[j]
        } else {
            0
        })
}

/// A version is newer than another exactly if, at the first place where their
/// numbers differ, its number is the larger one. Places are counted from the
/// first, and a missing number is zero; so what is newer has a number there.
pub proof fn the_first_different_number_decides(a: Seq<char>, b: Seq<char>)
    ensures
        newer(a, b) <==> exists|i: int|
            #![trigger first_larger_at(version_numbers(a), version_numbers(b), i)]
            first_larger_at(version_numbers(a), version_numbers(b), i),
{
    let x = version_numbers(a);
    let y = version_numbers(b);
    let n = (if x.len() >= y.len() {
        x.len()
    } else {
        y.len()
    }) as int;
    if newer(a, b) {
        let i = lemma_newer_from_witness(x, y, 0, n);
        assert forall|j: int| 0 <= j < i implies #[trigger] x[j] == (if j < y.len() {
            y[j]
        } else {
            0
        }) by {
            assert(number_at(x, j) == number_at(y, j));
        }
        assert(first_larger_at(x, y, i));
    }
    if exists|i: int| #![trigger first_larger_at(x, y, i)] first_larger_at(x, y, i) {
        let i = choose|i: int| #![trigger first_larger_at(x, y, i)] first_larger_at(x, y, i);
        assert forall|j: int| 0 <= j < i implies #[trigger] number_at(x, j) == number_at(y, j) by {
            assert(number_at(x, j) == x[j]);
        }
        lemma_newer_from_decided(x, y, 0, i, n);
    }
}

proof fn lemma_newer_from_witness(x: Seq<nat>, y: Seq<nat>, from: int, n: int) -> (i: int)
    requires
        0 <= from,
        newer_from(x, y, from, n),
    ensures
        from <= i < n,
        i < x.len(),
        number_at(x, i) > number_at(y, i),
        forall|j: int| from <= j < i ==> #[trigger] number_at(x, j) == number_at(y, j),
    decreases n - from,
{
    if number_at(x, from) == number_at(y, from) {
        lemma_newer_from_witness(x, y, from + 1, n)
    } else {
        from
    }
}

proof fn lemma_newer_from_decided(x: Seq<nat>, y: Seq<nat>, from: int, i: int, n: int)
    requires
        0 <= from <= i < n,
        number_at(x, i) > number_at(y, i),
        forall|j: int| from <= j < i ==> #[trigger] number_at(x, j) == number_at(y, j),
    ensures
        newer_from(x, y, from, n),
    decreases i - from,
{
    if from < i {
        assert(number_at(x, from) == number_at(y, from));
        lemma_newer_from_decided(x, y, from + 1, i, n);
    }
}

/// Numbers written in decimal, with dots between them.
pub open spec fn dotted(numbers: Seq<nat>) -> Seq<char> {
    text::joined_by(Seq::new(numbers.len(), |i: int| text::decimal(numbers[i])), seq!['.'])
}

proof fn lemma_numbers_of_decimals(parts: Seq<Seq<char>>, x: Seq<nat>)
    requires
        parts.len() == x.len(),
        forall|i: int| 0 <= i < x.len() ==> parts[i] == text::decimal(#[trigger] x[i]),
        forall|i: int| 0 <= i < x.len() ==> #[trigger] x[i] <= u32::MAX,
    ensures
        numbers(parts) == x,
    decreases x.len(),
{
    if x.len() > 0 {
        assert(parts.last() == text::decimal(x.last()));
        text::decimals_are_read_back(x.last(), u32::MAX as nat);
        assert forall|i: int| 0 <= i < x.drop_last().len() implies parts.drop_last()[i]
            == text::decimal(#[trigger] x.drop_last()[i]) by {
            assert(x[i] == x.drop_last()[i]);
        }
        assert forall|i: int| 0 <= i < x.drop_last().len() implies #[trigger] x.drop_last()[i]
            <= u32::MAX by {
            assert(x[i] == x.drop_last()[i]);
        }
        lemma_numbers_of_decimals(parts.drop_last(), x.drop_last());
        assert(x.drop_last().push(x.last()) =~= x);
    } else {
        assert(numbers(parts) =~= x);
    }
}

/// A version that is numbers with dots between them has exactly these numbers.
pub proof fn a_dotted_version_has_its_numbers(x: Seq<nat>)
    requires
        x.len() > 0,
        forall|i: int| 0 <= i < x.len() ==> #[trigger] x[i] <= u32::MAX,
    ensures
        version_numbers(dotted(x)) == x,
{
    let parts = Seq::new(x.len(), |i: int| text::decimal(x[i]));
    assert forall|i: int| 0 <= i < parts.len() implies !(#[trigger] parts[i]).contains('.') by {
        text::decimals_denote_their_number(x[i]);
        assert(parts[i] == text::decimal(x[i]));
    }
    text::splitting_undoes_joining(parts, '.');
    lemma_numbers_of_decimals(parts, x);
}

/// Of two versions that are numbers with dots between them, one with a larger
/// number at some place is newer where the numbers before that place are the
/// same, whatever follows; so a larger first number is newer. The other one is
/// then not newer.
pub proof fn a_larger_number_is_newer(x: Seq<nat>, y: Seq<nat>, i: int)
    requires
        x.len() > 0,
        y.len() > 0,
        forall|k: int| 0 <= k < x.len() ==> #[trigger] x[k] <= u32::MAX,
        forall|k: int| 0 <= k < y.len() ==> #[trigger] y[k] <= u32::MAX,
        0 <= i < x.len(),
        x[i] > (if i < y.len() {
            y[i]
        } else {
            0
        }),
        forall|j: int|
            0 <= j < i ==> #[trigger] x[j] == (if j < y.len() {
                y[j]
            } else {
                0
            }),
    ensures
        newer(dotted(x), dotted(y)),
        !newer(dotted(y), dotted(x)),
{
    a_dotted_version_has_its_numbers(x);
    a_dotted_version_has_its_numbers(y);
    assert(first_larger_at(version_numbers(dotted(x)), version_numbers(dotted(y)), i));
    the_first_different_number_decides(dotted(x), dotted(y));
    lemma_newer_is_one_way(dotted(x), dotted(y));
}

/// Parts of a version that are no numbers are passed over; those that are keep
/// their order.
pub proof fn parts_that_are_no_numbers_are_passed_over(
    before: Seq<Seq<char>>,
    part: Seq<char>,
    behind: Seq<Seq<char>>,
)
    ensures
        numbers(before + seq![part] + behind) == match text::parse_unsigned(
            part,
            u32::MAX as nat,
        ) {
            Some(n) => numbers(before) + seq![n] + numbers(behind),
            None => numbers(before) + numbers(behind),
        },
    decreases behind.len(),
{
    let all = before + seq![part] + behind;
    if behind.len() == 0 {
        assert(all.drop_last() =~= before);
        assert(numbers(behind) =~= Seq::<nat>::empty());
        match text::parse_unsigned(part, u32::MAX as nat) {
            Some(n) => {
                assert(numbers(all) =~= numbers(before) + seq![n] + numbers(behind));
            },
            None => {
                assert(numbers(all) =~= numbers(before) + numbers(behind));
            },
        }
    } else {
        parts_that_are_no_numbers_are_passed_over(before, part, behind.drop_last());
        assert(all.drop_last() =~= before + seq![part] + behind.drop_last());
        assert(all.last() == behind.last());
        match text::parse_unsigned(part, u32::MAX as nat) {
            Some(n) => {
                assert(numbers(all) =~= numbers(before) + seq![n] + numbers(behind));
            },
            None => {
                assert(numbers(all) =~= numbers(before) + numbers(behind));
            },
        }
    }
}

proof fn lemma_build_index(builds: Seq<CartridgeBuild>, platform: Seq<char>, from: int)
    requires
        0 <= from <= builds.len(),
    ensures
        from <= build_index(builds, platform, from) <= builds.len(),
        build_index(builds, platform, from) < builds.len() ==> builds[build_index(
            builds,
            platform,
            from,
        )].platform@ == platform,
        forall|j: int|
            from <= j < build_index(builds, platform, from) ==> (#[trigger] builds[j]).platform@
                != platform,
    decreases builds.len() - from,
{
    if from < builds.len() && builds[from].platform@ != platform {
        lemma_build_index(builds, platform, from + 1);
    }
}

/// A build is taken for its own platform only: the first that is published for
/// it, and none where none is.
pub proof fn a_build_is_for_its_platform(builds: Seq<CartridgeBuild>, platform: Seq<char>, i: int)
    requires
        0 <= i < builds.len(),
        builds[i].platform@ == platform,
        forall|j: int| 0 <= j < i ==> (#[trigger] builds[j]).platform@ != platform,
    ensures
        build_index(builds, platform, 0) == i,
{
    lemma_build_index(builds, platform, 0);
    let at = build_index(builds, platform, 0);
    if at < i {
        assert(builds[at].platform@ == platform);
    } else if i < at {
        assert(builds[i].platform@ != platform);
    }
}

/// The binaries of development paths are those of every path, path by path.
pub proof fn every_dev_path_brings_its_binaries(paths: Seq<DevPath>)
    ensures
        all_dev_binaries(paths) == Seq::new(
            paths.len(),
            |i: int|
                match paths[i] {
                    DevPath::File(path) => seq![path@],
                    DevPath::Cartridge { entry_point } => seq![entry_point@],
                    DevPath::Plain { executables } => Seq::new(
                        executables@.len(),
                        |j: int| executables@[j]@,
                    ),
                    DevPath::Skipped => Seq::empty(),
                },
        ).flatten(),
    decreases paths.len(),
{
    let of = |p: DevPath|
        match p {
            DevPath::File(path) => seq![path@],
            DevPath::Cartridge { entry_point } => seq![entry_point@],
            DevPath::Plain { executables } => Seq::new(
                executables@.len(),
                |j: int| executables@[j]@,
            ),
            DevPath::Skipped => Seq::empty(),
        };
    let each = Seq::new(
        paths.len(),
        |i: int|
            match paths[i] {
                DevPath::File(path) => seq![path@],
                DevPath::Cartridge { entry_point } => seq![entry_point@],
                DevPath::Plain { executables } => Seq::new(
                    executables@.len(),
                    |j: int| executables@[j]@,
                ),
                DevPath::Skipped => Seq::empty(),
            },
    );
    each.lemma_flatten_and_flatten_alt_are_equivalent();
    if paths.len() > 0 {
        let short = paths.drop_last();
        every_dev_path_brings_its_binaries(short);
        let before = Seq::new(
            short.len(),
            |i: int|
                match short[i] {
                    DevPath::File(path) => seq![path@],
                    DevPath::Cartridge { entry_point } => seq![entry_point@],
                    DevPath::Plain { executables } => Seq::new(
                        executables@.len(),
                        |j: int| executables@[j]@,
                    ),
                    DevPath::Skipped => Seq::empty(),
                },
        );
        before.lemma_flatten_and_flatten_alt_are_equivalent();
        assert(each.drop_last() =~= before) by {
            assert forall|i: int| 0 <= i < before.len() implies each.drop_last()[i] == before[i] by {
                assert(short[i] == paths[i]);
                assert(before[i] =~= of(short[i]));
                assert(each[i] =~= of(paths[i]));
            }
        }
        assert(each.last() =~= dev_binaries(paths.last()));
    }
}

/// The bundled cartridges that are hosted are the compatible ones, in the order
/// found.
pub proof fn every_compatible_cartridge_is_hosted(found: Seq<DiscoveredCartridge>)
    ensures
        compatible_ones(found) == found.filter(|d: DiscoveredCartridge| d is Directory),
    decreases found.len(),
{
    let keeps = |d: DiscoveredCartridge| d is Directory;
    reveal(Seq::filter);
    if found.len() > 0 {
        every_compatible_cartridge_is_hosted(found.drop_last());
        assert(compatible_ones(found) =~= found.filter(keeps));
    } else {
        assert(compatible_ones(found) =~= found.filter(keeps));
    }
}

/// The identifier of a development binary gives back its path; no other
/// identifier has one.
pub proof fn a_dev_identifier_holds_its_path(path: Seq<char>, id: Seq<char>)
    ensures
        dev_id_path("dev:"@ + path) == Some(path),
        dev_id_path(id) is Some ==> id == "dev:"@ + dev_id_path(id)->0,
{
    let whole = "dev:"@ + path;
    let n = "dev:"@.len() as int;
    assert(whole.subrange(0, n) =~= "dev:"@);
    assert(whole.subrange(n, whole.len() as int) =~= path);
    if dev_id_path(id) is Some {
        assert(id =~= id.subrange(0, n) + id.subrange(n, id.len() as int));
    }
}

/// The numbers of a version are those of its dot-separated parts that are
/// numbers, in order.
pub proof fn every_number_of_a_version_counts(parts: Seq<Seq<char>>)
    ensures
        numbers(parts) == parts.filter_map(
            |p: Seq<char>| text::parse_unsigned(p, u32::MAX as nat),
        ),
    decreases parts.len(),
{
    let number = |p: Seq<char>| text::parse_unsigned(p, u32::MAX as nat);
    if parts.len() > 0 {
        every_number_of_a_version_counts(parts.drop_last());
        assert(numbers(parts) =~= parts.filter_map(number));
    } else {
        assert(numbers(parts) =~= parts.filter_map(number));
    }
}

/// A hosted cartridge offers what its manifest declares: its name, version and
/// channel, and every cap of every group. One without a manifest offers nothing
/// but the identity cap.
pub proof fn a_hosted_cartridge_offers_its_caps(
    m: CartridgeManager,
    h: HostableCartridge,
    path: Seq<char>,
    identity: CapUrn,
    g: int,
    c: int,
)
    requires
        hosts(m, h, path, identity),
    ensures
        h.path@ == path,
        m.dev_cartridges@.contains_key(path) ==> {
            let known = m.dev_cartridges@[path];
            &&& h.identity matches Some((name, version, channel)) && name@ == known.name@
                && version@ == known.version@ && channel == known.channel
            &&& h.cap_groups@.len() == known.cap_groups@.len()
            &&& 0 <= g < known.cap_groups@.len() ==> h.cap_groups@[g].name@
                == known.cap_groups@[g].name@ && h.cap_groups@[g].caps@.len()
                == known.cap_groups@[g].caps@.len()
            &&& 0 <= g < known.cap_groups@.len() && 0 <= c < known.cap_groups@[g].caps@.len()
                ==> h.cap_groups@[g].caps@[c].text@ == known.cap_groups@[g].caps@[c].text@
                && h.cap_groups@[g].caps@[c]@ == known.cap_groups@[g].caps@[c]@
        },
        !m.dev_cartridges@.contains_key(path) ==> h.identity is None && h.cap_groups@.len() == 1
            && h.cap_groups@[0].caps@.len() == 1 && h.cap_groups@[0].caps@[0]@ == identity@,
{
    if m.dev_cartridges@.contains_key(path) {
        let known = m.dev_cartridges@[path];
        if 0 <= g < known.cap_groups@.len() {
            assert(same_group(h.cap_groups@[g], known.cap_groups@[g]));
        }
    }
}

} // verus!
