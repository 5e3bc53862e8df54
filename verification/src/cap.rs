//! Capability definitions: declared arguments, output and their shapes.

use crate::stream_io::OutputContract;
use crate::table::Table;
use crate::text;
use crate::urn;
use crate::urn::{denotes, CapUrn, MediaUrn};
use vstd::prelude::*;
use vstd::string::*;

verus! {

/// How an argument can be supplied.
#[derive(Debug)]
pub enum ArgSource {
    /// From a stream labeled with this media URN.
    Stdin { stdin: String },
    /// By a command-line flag.
    CliFlag { cli_flag: String },
    /// By its place among the bare command-line tokens.
    Position { position: usize },
}

/// A declared argument of a capability.
pub struct CapArg {
    pub media_urn: String,
    pub required: bool,
    pub is_sequence: bool,
    pub streaming: bool,
    pub sources: Vec<ArgSource>,
    pub arg_description: Option<String>,
    /// The default value, as JSON text.
    pub default_value: Option<String>,
}

/// The declared output of a capability.
pub struct CapOutput {
    pub media_urn: String,
    pub output_description: String,
    pub is_sequence: bool,
    pub streaming: bool,
}

/// A capability definition.
pub struct Cap {
    pub urn: CapUrn,
    pub title: String,
    pub aliases: Vec<String>,
    pub args: Vec<CapArg>,
    pub output: Option<CapOutput>,
    pub metadata: Table<String>,
}

/// The first stream source of an argument at or after `from`, or the number of
/// sources where there is none.
pub open spec fn stdin_index(sources: Seq<ArgSource>, from: int) -> int
    decreases sources.len() - from,
{
    if from >= sources.len() {
        sources.len() as int
    } else if sources[from] is Stdin {
        from
    } else {
        stdin_index(sources, from + 1)
    }
}

pub proof fn lemma_no_stdin_source(sources: Seq<ArgSource>, from: int)
    requires
        0 <= from <= sources.len(),
        forall|k: int| from <= k < sources.len() ==> !(#[trigger] sources[k] is Stdin),
    ensures
        stdin_index(sources, from) == sources.len(),
    decreases sources.len() - from,
{
    if from < sources.len() {
        lemma_no_stdin_source(sources, from + 1);
    }
}

pub proof fn lemma_first_stdin_source(sources: Seq<ArgSource>, from: int)
    requires
        0 <= from <= sources.len(),
    ensures
        from <= stdin_index(sources, from) <= sources.len(),
        stdin_index(sources, from) < sources.len() ==> sources[stdin_index(sources, from)] is Stdin,
        forall|k: int|
            from <= k < stdin_index(sources, from) ==> !(#[trigger] sources[k] is Stdin),
    decreases sources.len() - from,
{
    if from < sources.len() && !(sources[from] is Stdin) {
        lemma_first_stdin_source(sources, from + 1);
    }
}

/// Whether an argument is fed from a stream.
pub open spec fn stdin_fed(arg: CapArg) -> bool {
    stdin_index(arg.sources@, 0) < arg.sources@.len()
}

/// The URN that labels the stream of an argument: its stream source's where it
/// declares one, else its own.
pub open spec fn stream_urn_of(arg: CapArg) -> Seq<char> {
    let i = stdin_index(arg.sources@, 0);
    if i < arg.sources@.len() {
        arg.sources@[i]->stdin@
    } else {
        arg.media_urn@
    }
}

/// Whether an argument is the main input: it has a stream source whose URN has
/// the tags of the capability's `in=`.
pub open spec fn main_input(arg: CapArg, in_spec: urn::TagMap) -> bool {
    exists|i: int|
        0 <= i < arg.sources@.len() && #[trigger] feeds_main(arg.sources@[i], in_spec)
}

/// Whether a source is a stream with the given tags.
pub open spec fn feeds_main(s: ArgSource, in_spec: urn::TagMap) -> bool {
    s matches ArgSource::Stdin { stdin } && urn::media_parsed(stdin@) == Ok::<
        urn::TagMap,
        urn::UrnFault,
    >(in_spec)
}

proof fn lemma_stdin_index(sources: Seq<ArgSource>, from: int)
    requires
        0 <= from <= sources.len(),
    ensures
        from <= stdin_index(sources, from) <= sources.len(),
        stdin_index(sources, from) < sources.len() ==> sources[stdin_index(sources, from)] is Stdin,
    decreases sources.len() - from,
{
    if from < sources.len() && !(sources[from] is Stdin) {
        lemma_stdin_index(sources, from + 1);
    }
}

impl CapArg {
    /// An argument without description or default.
    pub fn new(media_urn: String, required: bool, sources: Vec<ArgSource>) -> (a: Self)
        ensures
            a.media_urn == media_urn,
            a.required == required,
            a.sources == sources,
            !a.is_sequence,
            !a.streaming,
            a.arg_description is None,
            a.default_value is None,
    {
        CapArg {
            media_urn,
            required,
            is_sequence: false,
            streaming: false,
            sources,
            arg_description: None,
            default_value: None,
        }
    }

    fn first_stdin(&self) -> (r: usize)
        ensures
            r == stdin_index(self.sources@, 0),
            r <= self.sources@.len(),
    {
        let mut i: usize = 0;
        while i < self.sources.len()
            invariant
                i <= self.sources.len(),
                stdin_index(self.sources@, 0) == stdin_index(self.sources@, i as int),
            decreases self.sources.len() - i,
        {
            match &self.sources[i] {
                ArgSource::Stdin { .. } => {
                    return i;
                },
                _ => {},
            }
            i = i + 1;
        }
        i
    }

    /// Whether the argument is fed from a stream.
    pub fn has_stdin_source(&self) -> (r: bool)
        ensures
            r == stdin_fed(*self),
    {
        self.first_stdin() < self.sources.len()
    }

    /// The URN that labels the argument's stream.
    pub fn stream_urn(&self) -> (r: &str)
        ensures
            r@ == stream_urn_of(*self),
    {
        let i: usize = self.first_stdin();
        proof {
            lemma_stdin_index(self.sources@, 0);
        }
        if i < self.sources.len() {
            match &self.sources[i] {
                ArgSource::Stdin { stdin } => stdin.as_str(),
                _ => self.media_urn.as_str(),
            }
        } else {
            self.media_urn.as_str()
        }
    }

    /// Whether the argument is the capability's main input.
    pub fn is_main_input(&self, in_spec: &MediaUrn) -> (r: bool)
        ensures
            r == main_input(*self, in_spec@),
    {
        let mut i: usize = 0;
        while i < self.sources.len()
            invariant
                i <= self.sources.len(),
                forall|j: int|
                    0 <= j < i ==> !#[trigger] feeds_main(self.sources@[j], in_spec@),
            decreases self.sources.len() - i,
        {
            if let ArgSource::Stdin { stdin } = &self.sources[i] {
                if denotes(stdin.as_str(), in_spec) {
                    assert(feeds_main(self.sources@[i as int], in_spec@));
                    return true;
                }
            }
            i = i + 1;
        }
        false
    }
}

impl CapOutput {
    /// A scalar, bounded output.
    pub fn new(media_urn: String, output_description: String) -> (o: Self)
        ensures
            o.media_urn == media_urn,
            o.output_description == output_description,
            !o.is_sequence,
            !o.streaming,
    {
        CapOutput { media_urn, output_description, is_sequence: false, streaming: false }
    }
}

/// The first argument at or after `from` that is the main input, or the number
/// of arguments where there is none.
pub open spec fn main_input_index(args: Seq<CapArg>, in_spec: urn::TagMap, from: int) -> int
    decreases args.len() - from,
{
    if from >= args.len() {
        args.len() as int
    } else if main_input(args[from], in_spec) {
        from
    } else {
        main_input_index(args, in_spec, from + 1)
    }
}

/// Whether a capability takes its main input as a sequence.
pub open spec fn input_is_sequence(cap: Cap) -> bool {
    match urn::media_parsed(urn::tag_or(cap.urn@, "in"@, "media:"@)) {
        Err(_) => false,
        Ok(in_spec) => {
            let i = main_input_index(cap.args@, in_spec, 0);
            i < cap.args@.len() && cap.args@[i].is_sequence
        },
    }
}

/// Whether a capability emits a sequence.
pub open spec fn output_is_sequence(cap: Cap) -> bool {
    match cap.output {
        Some(o) => o.is_sequence,
        None => false,
    }
}

/// Whether a capability may emit an unbounded stream.
pub open spec fn output_streams(cap: Cap) -> bool {
    match cap.output {
        Some(o) => o.streaming,
        None => false,
    }
}

impl Cap {
    /// A capability without arguments or output.
    pub fn new(urn: CapUrn, title: String, aliases: Vec<String>) -> (c: Self)
        ensures
            c.urn == urn,
            c.title == title,
            c.aliases == aliases,
            c.args@.len() == 0,
            c.output is None,
            c.metadata@ == Map::<Seq<char>, String>::empty(),
    {
        Cap { urn, title, aliases, args: Vec::new(), output: None, metadata: Table::new() }
    }

    /// The cardinality of the main input and of the output.
    pub fn sequence_shape(&self) -> (r: (bool, bool))
        ensures
            r.0 == input_is_sequence(*self),
            r.1 == output_is_sequence(*self),
    {
        let output: bool = match &self.output {
            Some(o) => o.is_sequence,
            None => false,
        };
        let in_spec = match MediaUrn::from_string(self.urn.in_spec().as_str()) {
            Ok(u) => u,
            Err(_) => {
                return (false, output);
            },
        };
        let mut i: usize = 0;
        while i < self.args.len()
            invariant
                i <= self.args.len(),
                main_input_index(self.args@, in_spec@, 0) == main_input_index(
                    self.args@,
                    in_spec@,
                    i as int,
                ),
                urn::media_parsed(urn::tag_or(self.urn@, "in"@, "media:"@)) == Ok::<
                    urn::TagMap,
                    urn::UrnFault,
                >(in_spec@),
                output == output_is_sequence(*self),
            decreases self.args.len() - i,
        {
            if self.args[i].is_main_input(&in_spec) {
                return (self.args[i].is_sequence, output);
            }
            i = i + 1;
        }
        (false, output)
    }
}

impl OutputContract {
    /// The contract of a cap definition's output. A cap with no output
    /// (`out=media:void`) has nothing to audit: both flags are false, and an
    /// emission from it is caught by the effect audit.
    pub fn of(cap: &Cap) -> (c: Self)
        ensures
            c.is_sequence == output_is_sequence(*cap),
            c.streaming == output_streams(*cap),
    {
        match &cap.output {
            Some(o) => OutputContract { is_sequence: o.is_sequence, streaming: o.streaming },
            None => OutputContract { is_sequence: false, streaming: false },
        }
    }
}

// ---------------------------------------------------------------------------
// Copies
// ---------------------------------------------------------------------------
impl Clone for ArgSource {
    fn clone(&self) -> (r: Self)
        ensures
            r == *self,
    {
        match self {
            ArgSource::Stdin { stdin } => ArgSource::Stdin { stdin: stdin.clone() },
            ArgSource::CliFlag { cli_flag } => ArgSource::CliFlag { cli_flag: cli_flag.clone() },
            ArgSource::Position { position } => ArgSource::Position { position: *position },
        }
    }
}

/// Whether two arguments declare the same.
pub open spec fn same_arg(a: CapArg, b: CapArg) -> bool {
    &&& a.sources@ == b.sources@
    &&& a == (CapArg { sources: a.sources, ..b })
}

/// Whether two capability definitions declare the same.
pub open spec fn same_cap(a: Cap, b: Cap) -> bool {
    &&& a.urn.text == b.urn.text
    &&& a.urn@ == b.urn@
    &&& a.title == b.title
    &&& a.aliases@ == b.aliases@
    &&& a.args@.len() == b.args@.len()
    &&& forall|i: int| 0 <= i < a.args@.len() ==> same_arg(#[trigger] a.args@[i], b.args@[i])
    &&& a.output == b.output
    &&& a.metadata@ == b.metadata@
}

impl Clone for CapArg {
    fn clone(&self) -> (r: Self)
        ensures
            same_arg(r, *self),
    {
        let mut sources: Vec<ArgSource> = Vec::new();
        let mut i: usize = 0;
        while i < self.sources.len()
            invariant
                i <= self.sources@.len(),
                sources@ == self.sources@.take(i as int),
            decreases self.sources@.len() - i,
        {
            sources.push(self.sources[i].clone());
            assert(self.sources@.take(i + 1) =~= self.sources@.take(i as int).push(
                self.sources@[i as int],
            ));
            i = i + 1;
        }
        assert(self.sources@.take(i as int) =~= self.sources@);
        CapArg {
            media_urn: self.media_urn.clone(),
            required: self.required,
            is_sequence: self.is_sequence,
            streaming: self.streaming,
            sources,
            arg_description: text::clone_opt(&self.arg_description),
            default_value: text::clone_opt(&self.default_value),
        }
    }
}

impl Clone for CapOutput {
    fn clone(&self) -> (r: Self)
        ensures
            r == *self,
    {
        CapOutput {
            media_urn: self.media_urn.clone(),
            output_description: self.output_description.clone(),
            is_sequence: self.is_sequence,
            streaming: self.streaming,
        }
    }
}

fn clone_metadata(t: &Table<String>) -> (r: Table<String>)
    ensures
        r@ == t@,
{
    let n: usize = t.len();
    let mut r: Table<String> = Table::new();
    let ghost keys = t.order();
    let mut i: usize = 0;
    assert(r@ =~= t@.restrict(keys.take(0).to_set()));
    while i < n
        invariant
            keys == t.order(),
            n == keys.len(),
            i <= n,
            r@ == t@.restrict(keys.take(i as int).to_set()),
        decreases n - i,
    {
        proof {
            crate::table::lemma_take_push(keys, i as int);
        }
        r.insert(t.key_at(i).clone(), t.value_at(i).clone());
        assert(r@ =~= t@.restrict(keys.take(i + 1).to_set()));
        i = i + 1;
    }
    proof {
        assert(keys.take(i as int) =~= keys);
        assert(t@.restrict(keys.to_set()) =~= t@) by {
            assert forall|k: Seq<char>| t@.contains_key(k) implies keys.to_set().contains(k) by {
                assert(keys.contains(k));
            }
        }
    }
    r
}

impl Clone for Cap {
    fn clone(&self) -> (r: Self)
        ensures
            same_cap(r, *self),
    {
        let mut aliases: Vec<String> = Vec::new();
        let mut i: usize = 0;
        while i < self.aliases.len()
            invariant
                i <= self.aliases@.len(),
                aliases@ == self.aliases@.take(i as int),
            decreases self.aliases@.len() - i,
        {
            aliases.push(self.aliases[i].clone());
            assert(self.aliases@.take(i + 1) =~= self.aliases@.take(i as int).push(
                self.aliases@[i as int],
            ));
            i = i + 1;
        }
        assert(self.aliases@.take(i as int) =~= self.aliases@);
        let mut args: Vec<CapArg> = Vec::new();
        let mut j: usize = 0;
        while j < self.args.len()
            invariant
                j <= self.args@.len(),
                args@.len() == j,
                forall|x: int| 0 <= x < j ==> same_arg(#[trigger] args@[x], self.args@[x]),
            decreases self.args@.len() - j,
        {
            args.push(self.args[j].clone());
            j = j + 1;
        }
        let output = match &self.output {
            Some(o) => Some(o.clone()),
            None => None,
        };
        Cap {
            urn: self.urn.clone(),
            title: self.title.clone(),
            aliases,
            args,
            output,
            metadata: clone_metadata(&self.metadata),
        }
    }
}

/// An argument is streamed under the URN of its first stream source, whatever
/// other sources it declares; one without a stream source under its own URN.
pub proof fn a_stream_is_labeled_by_its_first_source(arg: CapArg, i: int)
    requires
        0 <= i <= arg.sources@.len(),
        forall|k: int| 0 <= k < i ==> !((#[trigger] arg.sources@[k]) is Stdin),
        i < arg.sources@.len() ==> arg.sources@[i] is Stdin,
    ensures
        i < arg.sources@.len() ==> stdin_fed(arg) && stream_urn_of(arg)
            == arg.sources@[i]->stdin@,
        i == arg.sources@.len() ==> !stdin_fed(arg) && stream_urn_of(arg) == arg.media_urn@,
{
    lemma_first_stdin_source(arg.sources@, 0);
    let at = stdin_index(arg.sources@, 0);
    if at < i {
        assert(arg.sources@[at] is Stdin);
    } else if i < at {
        assert(!(arg.sources@[i] is Stdin));
    }
}

/// Whether a cap takes its input as a sequence is said by its main input: the
/// first argument with a stream source that denotes the cap's `in=`.
pub proof fn the_main_input_decides(cap: Cap, in_spec: urn::TagMap, i: int, p: int)
    requires
        urn::media_parsed(
            if cap.urn@.contains_key("in"@) && cap.urn@["in"@] is Some {
                cap.urn@["in"@]->Some_0
            } else {
                "media:"@
            },
        ) == Ok::<urn::TagMap, urn::UrnFault>(in_spec),
        0 <= i < cap.args@.len(),
        0 <= p < cap.args@[i].sources@.len(),
        cap.args@[i].sources@[p] is Stdin,
        urn::media_parsed(cap.args@[i].sources@[p]->stdin@) == Ok::<urn::TagMap, urn::UrnFault>(
            in_spec,
        ),
        forall|j: int, q: int|
            #![trigger cap.args@[j].sources@[q]]
            0 <= j < i && 0 <= q < cap.args@[j].sources@.len() && cap.args@[j].sources@[q] is Stdin
                ==> urn::media_parsed(cap.args@[j].sources@[q]->stdin@) != Ok::<
                urn::TagMap,
                urn::UrnFault,
            >(in_spec),
    ensures
        input_is_sequence(cap) == cap.args@[i].is_sequence,
{
    assert(feeds_main(cap.args@[i].sources@[p], in_spec));
    assert forall|j: int| 0 <= j < i implies !main_input(#[trigger] cap.args@[j], in_spec) by {
        assert forall|q: int| 0 <= q < cap.args@[j].sources@.len() implies !#[trigger] feeds_main(
            cap.args@[j].sources@[q],
            in_spec,
        ) by {
            assert(cap.args@[j].sources@[q] == cap.args@[j].sources@[q]);
        }
    }
    lemma_main_input_at(cap.args@, in_spec, 0, i);
}

proof fn lemma_main_input_at(args: Seq<CapArg>, in_spec: urn::TagMap, from: int, i: int)
    requires
        0 <= from <= i < args.len(),
        main_input(args[i], in_spec),
        forall|j: int| from <= j < i ==> !main_input(#[trigger] args[j], in_spec),
    ensures
        main_input_index(args, in_spec, from) == i,
    decreases i - from,
{
    if from < i {
        assert(!main_input(args[from], in_spec));
        lemma_main_input_at(args, in_spec, from + 1, i);
    }
}

/// A copied cap is the cap: every field of it and of its arguments is the same.
pub proof fn a_copied_cap_is_the_same(a: Cap, b: Cap, i: int)
    requires
        same_cap(a, b),
        0 <= i < b.args@.len(),
    ensures
        a.urn.text@ == b.urn.text@,
        a.urn@ == b.urn@,
        a.title@ == b.title@,
        a.aliases@ == b.aliases@,
        a.args@.len() == b.args@.len(),
        a.args@[i].media_urn@ == b.args@[i].media_urn@,
        a.args@[i].required == b.args@[i].required,
        a.args@[i].is_sequence == b.args@[i].is_sequence,
        a.args@[i].streaming == b.args@[i].streaming,
        a.args@[i].sources@ == b.args@[i].sources@,
        a.args@[i].default_value == b.args@[i].default_value,
        a.args@[i].arg_description == b.args@[i].arg_description,
        a.output == b.output,
        a.metadata@ == b.metadata@,
{
    assert(same_arg(a.args@[i], b.args@[i]));
}

} // verus!
