//! Single-cap CLI execution helpers.
//!
//! `capdag <alias-or-cap-urn> …` runs ONE cap as a Unix-style tool, with the
//! cap's OWN declared interface — exactly as if the cartridge were invoked
//! directly:
//!
//! - the stdin-fed arg comes from piped stdin or an input file,
//! - args with a flag source are passed as native flags,
//! - args with a position source are passed positionally, in declared position
//!   order,
//! - any arg can also be addressed explicitly by flag name or media URN.

use crate::cap;
use crate::cap::{ArgSource, Cap, CapArg};
use crate::run_arguments::clone_bytes;
use crate::text;
use crate::text::{
    blank, chars_of, contains_char, decimal_usize, join, same, string_of, trim,
};
use crate::urn;
use crate::urn::{denotes, CapUrn, MediaUrn};
use vstd::prelude::*;
use vstd::slice::slice_to_vec;
use vstd::string::*;

verus! {

/// The node names of the synthesized one-edge machine. The executor keys the
/// plan's input slot on the input node and extra cap arguments on the edge's
/// destination node.
pub const SINGLE_CAP_INPUT_NODE: &'static str = "input";

pub const SINGLE_CAP_STEP_NAME: &'static str = "step";

pub const SINGLE_CAP_OUTPUT_NODE: &'static str = "output";

// ---------------------------------------------------------------------------
// The cap token
// ---------------------------------------------------------------------------
/// How the CLI's first token names a cap.
#[derive(Debug, PartialEq)]
pub enum CapToken {
    /// Contains `:` — parsed strictly as a cap URN. An invalid URN is a hard
    /// error, never re-interpreted as an alias.
    Urn(String),
    /// No `:` — resolved as a registry alias.
    Alias(String),
}

/// Classify a CLI token as cap URN vs alias. The discriminator is the presence
/// of `:` (a URN always has one; an alias never does). A token with `:` that
/// fails to parse as a cap URN is a hard error naming the parse failure — it
/// does NOT fall through to alias resolution, which would mask typos in URNs.
pub fn classify_cap_token(token: &str) -> (r: Result<CapToken, String>)
    ensures
        match r {
            Ok(CapToken::Alias(a)) => !token@.contains(':') && a@ == token@,
            Ok(CapToken::Urn(u)) => token@.contains(':') && urn::cap_parsed(token@) is Ok && u@
                == token@,
            Err(e) => token@.contains(':') && urn::cap_parsed(token@) is Err && e@ == "'"@ + token@
                + "' contains ':' so it must be a cap URN, but it does not parse as one: "@
                + urn::fault_text(urn::cap_parsed(token@)->Err_0)
                + ". (Aliases never contain ':'.)"@,
        },
{
    if contains_char(token, ':') {
        match CapUrn::from_string(token) {
            Ok(parsed) => Ok(CapToken::Urn(parsed.text)),
            Err(e) => Err(
                "'".to_owned().concat(token).concat(
                    "' contains ':' so it must be a cap URN, but it does not parse as one: ",
                ).concat(e.detail().as_str()).concat(". (Aliases never contain ':'.)"),
            ),
        }
    } else {
        Ok(CapToken::Alias(token.to_owned()))
    }
}

// ---------------------------------------------------------------------------
// How arguments are passed
// ---------------------------------------------------------------------------
/// A flag without its leading dashes.
pub open spec fn undashed(s: Seq<char>) -> Seq<char>
    decreases s.len(),
{
    if s.len() > 0 && s[0] == '-' {
        undashed(s.subrange(1, s.len() as int))
    } else {
        s
    }
}

fn undash(s: &str) -> (r: String)
    ensures
        r@ == undashed(s@),
{
    let v = chars_of(s);
    let mut a: usize = 0;
    assert(v@.subrange(0, v@.len() as int) =~= v@);
    while a < v.len() && v[a] == '-'
        invariant
            a <= v@.len(),
            undashed(s@) == undashed(v@.subrange(a as int, v@.len() as int)),
        decreases v@.len() - a,
    {
        assert(v@.subrange(a as int, v@.len() as int).subrange(1, v@.len() - a) =~= v@.subrange(
            a + 1,
            v@.len() as int,
        ));
        a = a + 1;
    }
    let n: usize = v.len();
    string_of(&v, a, n)
}

/// The flags that sources declare, without dashes.
pub open spec fn flags_of(sources: Seq<ArgSource>) -> Seq<Seq<char>>
    decreases sources.len(),
{
    if sources.len() == 0 {
        Seq::empty()
    } else {
        match sources.last() {
            ArgSource::CliFlag { cli_flag } => flags_of(sources.drop_last()).push(
                undashed(cli_flag@),
            ),
            _ => flags_of(sources.drop_last()),
        }
    }
}

/// The first position that sources from `from` on declare.
pub open spec fn position_from(sources: Seq<ArgSource>, from: int) -> Option<usize>
    decreases sources.len() - from,
{
    if from >= sources.len() {
        None
    } else {
        match sources[from] {
            ArgSource::Position { position } => Some(position),
            _ => position_from(sources, from + 1),
        }
    }
}

/// The declared position of an argument.
pub open spec fn position_of(arg: CapArg) -> Option<usize> {
    position_from(arg.sources@, 0)
}

fn flag_names(arg: &CapArg) -> (r: Vec<String>)
    ensures
        text::views(r@) == flags_of(arg.sources@),
{
    let mut r: Vec<String> = Vec::new();
    let mut i: usize = 0;
    proof {
        assert(arg.sources@.take(0) =~= Seq::<ArgSource>::empty());
        assert(text::views(r@) =~= Seq::<Seq<char>>::empty());
    }
    while i < arg.sources.len()
        invariant
            i <= arg.sources@.len(),
            text::views(r@) == flags_of(arg.sources@.take(i as int)),
        decreases arg.sources@.len() - i,
    {
        proof {
            assert(arg.sources@.take(i + 1).drop_last() =~= arg.sources@.take(i as int));
            assert(arg.sources@.take(i + 1).last() == arg.sources@[i as int]);
        }
        let ghost before = text::views(r@);
        if let ArgSource::CliFlag { cli_flag } = &arg.sources[i] {
            let flag = undash(cli_flag.as_str());
            let ghost f = flag@;
            r.push(flag);
            assert(text::views(r@) =~= before.push(f));
        }
        i = i + 1;
    }
    assert(arg.sources@.take(i as int) =~= arg.sources@);
    r
}

fn declared_position(arg: &CapArg) -> (r: Option<usize>)
    ensures
        r == position_of(*arg),
{
    let mut i: usize = 0;
    while i < arg.sources.len()
        invariant
            i <= arg.sources@.len(),
            position_of(*arg) == position_from(arg.sources@, i as int),
        decreases arg.sources@.len() - i,
    {
        if let ArgSource::Position { position } = &arg.sources[i] {
            return Some(*position);
        }
        i = i + 1;
    }
    None
}

/// How a non-main argument is passed: its first declared flag, else its
/// declared position, else the universal `--arg` form.
pub open spec fn invocation_form(arg: CapArg) -> Seq<char> {
    let flags = flags_of(arg.sources@);
    if flags.len() > 0 {
        "--"@ + flags[0] + " <value>"@
    } else {
        match position_of(arg) {
            Some(p) => "positional #"@ + text::decimal(p as nat),
            None => "--arg '"@ + arg.media_urn@ + "=<value>'"@,
        }
    }
}

fn arg_invocation_form(arg: &CapArg) -> (r: String)
    ensures
        r@ == invocation_form(*arg),
{
    let flags = flag_names(arg);
    assert(text::views(flags@).len() == flags@.len());
    if flags.len() > 0 {
        assert(text::views(flags@)[0] == flags@[0]@);
        "--".to_owned().concat(flags[0].as_str()).concat(" <value>")
    } else {
        match declared_position(arg) {
            Some(position) => "positional #".to_owned().concat(decimal_usize(position).as_str()),
            None => "--arg '".to_owned().concat(arg.media_urn.as_str()).concat("=<value>'"),
        }
    }
}

// ---------------------------------------------------------------------------
// Rendering
// ---------------------------------------------------------------------------
/// A line with an argument's description, where it has one.
pub open spec fn with_description(line: Seq<char>, arg: CapArg) -> Seq<char> {
    match arg.arg_description {
        Some(d) => if text::trimmed(d@).len() > 0 {
            line + " — "@ + text::trimmed(d@)
        } else {
            line
        },
        None => line,
    }
}

/// A line that says whether the argument is a sequence.
pub open spec fn with_cardinality(line: Seq<char>, arg: CapArg) -> Seq<char> {
    if arg.is_sequence {
        line + " [sequence]"@
    } else {
        line
    }
}

/// One rendered option line: how it's passed, its media URN, its description,
/// plus a trailing qualifier (default value / optional / sequence).
pub open spec fn option_line(arg: CapArg) -> Seq<char> {
    let line = with_cardinality(
        with_description(
            "  "@ + invocation_form(arg) + "  ("@ + arg.media_urn@ + ")"@,
            arg,
        ),
        arg,
    );
    match arg.default_value {
        Some(default) => line + " [default: "@ + default@ + "]"@,
        None => if !arg.required {
            line + " [optional]"@
        } else {
            line
        },
    }
}

fn describe(line: String, arg: &CapArg) -> (r: String)
    ensures
        r@ == with_cardinality(with_description(line@, *arg), *arg),
{
    let mut r = line;
    if let Some(d) = &arg.arg_description {
        let short = trim(d.as_str());
        if !blank(short.as_str()) {
            r = r.concat(" — ").concat(short.as_str());
        }
    }
    if arg.is_sequence {
        r = r.concat(" [sequence]");
    }
    r
}

fn render_option_line(arg: &CapArg) -> (r: String)
    ensures
        r@ == option_line(*arg),
{
    let head = "  ".to_owned().concat(arg_invocation_form(arg).as_str()).concat("  (").concat(
        arg.media_urn.as_str(),
    ).concat(")");
    let line = describe(head, arg);
    match &arg.default_value {
        Some(default) => line.concat(" [default: ").concat(default.as_str()).concat("]"),
        None => if !arg.required {
            line.concat(" [optional]")
        } else {
            line
        },
    }
}

/// The routes of the main input besides stdin: its flags and its position.
pub open spec fn extra_routes(arg: CapArg) -> Seq<Seq<char>> {
    let flags = dashed(flags_of(arg.sources@));
    match position_of(arg) {
        Some(p) => flags.push("positional #"@ + text::decimal(p as nat)),
        None => flags,
    }
}

/// Flags as they are typed.
pub open spec fn dashed(flags: Seq<Seq<char>>) -> Seq<Seq<char>> {
    Seq::new(flags.len(), |i: int| "--"@ + flags[i])
}

/// The rendered line of a main input.
pub open spec fn input_line(arg: CapArg) -> Seq<char> {
    let line = with_cardinality(
        with_description("  "@ + cap::stream_urn_of(arg), arg),
        arg,
    );
    let routes = extra_routes(arg);
    if routes.len() > 0 {
        line + " (also: "@ + text::join_text(routes, ", "@) + ")"@
    } else {
        line
    }
}

fn dashed_flags(arg: &CapArg) -> (r: Vec<String>)
    ensures
        text::views(r@) == dashed(flags_of(arg.sources@)),
{
    let flags = flag_names(arg);
    let mut r: Vec<String> = Vec::new();
    let mut i: usize = 0;
    while i < flags.len()
        invariant
            i <= flags@.len(),
            text::views(r@) == dashed(text::views(flags@)).take(i as int),
        decreases flags@.len() - i,
    {
        let ghost before = text::views(r@);
        let flag = "--".to_owned().concat(flags[i].as_str());
        let ghost f = flag@;
        r.push(flag);
        proof {
            assert(text::views(r@) =~= before.push(f));
            assert(dashed(text::views(flags@)).take(i + 1) =~= dashed(text::views(flags@)).take(
                i as int,
            ).push(f));
        }
        i = i + 1;
    }
    assert(dashed(text::views(flags@)).take(i as int) =~= dashed(text::views(flags@)));
    r
}

fn render_input_line(arg: &CapArg) -> (r: String)
    ensures
        r@ == input_line(*arg),
{
    let head = "  ".to_owned().concat(arg.stream_urn());
    let line = describe(head, arg);
    let mut routes = dashed_flags(arg);
    let ghost before = text::views(routes@);
    if let Some(position) = declared_position(arg) {
        let route = "positional #".to_owned().concat(decimal_usize(position).as_str());
        let ghost p = route@;
        routes.push(route);
        assert(text::views(routes@) =~= before.push(p));
    }
    assert(text::views(routes@) == extra_routes(*arg));
    assert(text::views(routes@).len() == routes@.len());
    if routes.len() > 0 {
        line.concat(" (also: ").concat(join(&routes, ", ").as_str()).concat(")")
    } else {
        line
    }
}

/// The role of an argument.
#[derive(Debug, Clone, Copy, PartialEq, Eq, Structural)]
pub enum ArgRole {
    /// The main input: how the cap is fed.
    MainInput,
    /// Required and without a default: MUST be supplied on every invocation.
    Required,
    /// Every other argument.
    Optional,
}

/// The role of an argument of a cap with the given main input type.
pub open spec fn role_of(arg: CapArg, in_spec: urn::TagMap) -> ArgRole {
    if cap::main_input(arg, in_spec) {
        ArgRole::MainInput
    } else if arg.required && arg.default_value is None {
        ArgRole::Required
    } else {
        ArgRole::Optional
    }
}

/// The rendered lines of the arguments of one role, in their order.
pub open spec fn role_lines(args: Seq<CapArg>, in_spec: urn::TagMap, role: ArgRole) -> Seq<char>
    decreases args.len(),
{
    if args.len() == 0 {
        Seq::empty()
    } else {
        let before = role_lines(args.drop_last(), in_spec, role);
        if role_of(args.last(), in_spec) == role {
            before + (if role == ArgRole::MainInput {
                input_line(args.last())
            } else {
                option_line(args.last())
            }) + "\n"@
        } else {
            before
        }
    }
}

/// Whether an argument has a role.
pub open spec fn has_role(args: Seq<CapArg>, in_spec: urn::TagMap, role: ArgRole) -> bool {
    exists|i: int| 0 <= i < args.len() && role_of(#[trigger] args[i], in_spec) == role
}

/// The rendered interface of a cap, structured by argument role.
pub open spec fn interface_text(c: Cap, in_spec: urn::TagMap) -> Seq<char> {
    let urn_line = c.urn.text@ + "\n"@;
    let title = if c.title@.len() > 0 {
        urn_line + c.title@ + "\n"@
    } else {
        urn_line
    };
    let aliases = if c.aliases@.len() > 0 {
        title + "Aliases: "@ + text::join_text(text::views(c.aliases@), ", "@) + "\n"@
    } else {
        title
    };
    let input = aliases + "\nInput (piped stdin, or input file path(s)):\n"@ + role_lines(
        c.args@,
        in_spec,
        ArgRole::MainInput,
    );
    let required = if has_role(c.args@, in_spec, ArgRole::Required) {
        input + "\nRequired options (must be supplied):\n"@ + role_lines(
            c.args@,
            in_spec,
            ArgRole::Required,
        )
    } else {
        input
    };
    let options = if has_role(c.args@, in_spec, ArgRole::Optional) {
        required + "\nOptions:\n"@ + role_lines(c.args@, in_spec, ArgRole::Optional)
    } else {
        required
    };
    match c.output {
        Some(o) => options + "\nOutput: "@ + o.media_urn@ + (if o.is_sequence {
            " [sequence]"@
        } else {
            Seq::empty()
        }) + "\n"@,
        None => options,
    }
}

fn role(arg: &CapArg, in_spec: &MediaUrn) -> (r: ArgRole)
    ensures
        r == role_of(*arg, in_spec@),
{
    if arg.is_main_input(in_spec) {
        ArgRole::MainInput
    } else if arg.required && arg.default_value.is_none() {
        ArgRole::Required
    } else {
        ArgRole::Optional
    }
}

/// The lines of one role, and whether any argument has it.
fn render_role(c: &Cap, in_spec: &MediaUrn, wanted: ArgRole) -> (r: (String, bool))
    ensures
        r.0@ == role_lines(c.args@, in_spec@, wanted),
        r.1 == has_role(c.args@, in_spec@, wanted),
{
    let mut out = String::new();
    let mut any: bool = false;
    let mut i: usize = 0;
    proof {
        assert(c.args@.take(0) =~= Seq::<CapArg>::empty());
        assert(out@ =~= Seq::<char>::empty());
    }
    while i < c.args.len()
        invariant
            i <= c.args@.len(),
            out@ == role_lines(c.args@.take(i as int), in_spec@, wanted),
            any == exists|j: int|
                0 <= j < i && role_of(#[trigger] c.args@[j], in_spec@) == wanted,
        decreases c.args@.len() - i,
    {
        proof {
            assert(c.args@.take(i + 1).drop_last() =~= c.args@.take(i as int));
            assert(c.args@.take(i + 1).last() == c.args@[i as int]);
        }
        if role(&c.args[i], in_spec) == wanted {
            assert(role_of(c.args@[i as int], in_spec@) == wanted);
            any = true;
            let line = if wanted == ArgRole::MainInput {
                render_input_line(&c.args[i])
            } else {
                render_option_line(&c.args[i])
            };
            out = out.concat(line.as_str()).concat("\n");
        }
        i = i + 1;
    }
    assert(c.args@.take(i as int) =~= c.args@);
    (out, any)
}

/// Render a cap's declared interface for humans — the presentation the CLI (and
/// every other front-end) uses, structured by argument ROLE rather than as a
/// flat arg list:
///
/// - **Input** — the MAIN input (the arg whose `Stdin` source URN is the cap
///   URN's `in=` spec, by tagged-URN equivalence): how the cap is fed, via
///   piped stdin or input file path(s).
/// - **Required options** — non-main args that are required and defaultless:
///   these MUST be supplied on every invocation.
/// - **Options** — the remaining non-main args, with their default values.
pub fn render_cap_interface(c: &Cap) -> (r: Result<String, String>)
    ensures
        ({
            let spec = urn::tag_or(c.urn@, "in"@, "media:"@);
            match urn::media_parsed(spec) {
                Ok(in_spec) => r is Ok && r->Ok_0@ == interface_text(*c, in_spec),
                Err(fault) => r is Err && r->Err_0@ == "cap "@ + c.urn.text@ + " in= URN '"@ + spec
                    + "' is not a valid media URN: "@ + urn::fault_text(fault),
            }
        }),
{
    let in_text = c.urn.in_spec();
    let in_spec = match MediaUrn::from_string(in_text.as_str()) {
        Ok(u) => u,
        Err(e) => {
            return Err(
                "cap ".to_owned().concat(c.urn.text.as_str()).concat(" in= URN '").concat(
                    in_text.as_str(),
                ).concat("' is not a valid media URN: ").concat(e.detail().as_str()),
            );
        },
    };
    let mut out = c.urn.text.clone().concat("\n");
    if !blank(c.title.as_str()) {
        out = out.concat(c.title.as_str()).concat("\n");
    }
    if c.aliases.len() > 0 {
        out = out.concat("Aliases: ").concat(join(&c.aliases, ", ").as_str()).concat("\n");
    }
    let (inputs, _) = render_role(c, &in_spec, ArgRole::MainInput);
    out = out.concat("\nInput (piped stdin, or input file path(s)):\n").concat(inputs.as_str());
    let (required, any_required) = render_role(c, &in_spec, ArgRole::Required);
    if any_required {
        out = out.concat("\nRequired options (must be supplied):\n").concat(required.as_str());
    }
    let (optional, any_optional) = render_role(c, &in_spec, ArgRole::Optional);
    if any_optional {
        out = out.concat("\nOptions:\n").concat(optional.as_str());
    }
    if let Some(output) = &c.output {
        let ghost before = out@;
        out = out.concat("\nOutput: ").concat(output.media_urn.as_str());
        if output.is_sequence {
            out = out.concat(" [sequence]");
        } else {
            assert(out@ + Seq::<char>::empty() =~= out@);
        }
        out = out.concat("\n");
    }
    Ok(out)
}

// ---------------------------------------------------------------------------
// One-edge notation
// ---------------------------------------------------------------------------
/// How many arguments are fed from a stream.
pub open spec fn stdin_count(args: Seq<CapArg>) -> nat
    decreases args.len(),
{
    if args.len() == 0 {
        0
    } else {
        stdin_count(args.drop_last()) + (if cap::stdin_fed(args.last()) {
            1nat
        } else {
            0nat
        })
    }
}

fn count_stdin(c: &Cap) -> (n: usize)
    ensures
        n == stdin_count(c.args@),
{
    let mut n: usize = 0;
    let mut i: usize = 0;
    assert(c.args@.take(0) =~= Seq::<CapArg>::empty());
    while i < c.args.len()
        invariant
            n <= i <= c.args@.len(),
            n == stdin_count(c.args@.take(i as int)),
        decreases c.args@.len() - i,
    {
        proof {
            assert(c.args@.take(i + 1).drop_last() =~= c.args@.take(i as int));
            assert(c.args@.take(i + 1).last() == c.args@[i as int]);
        }
        if c.args[i].has_stdin_source() {
            n = n + 1;
        }
        i = i + 1;
    }
    assert(c.args@.take(i as int) =~= c.args@);
    n
}

/// The one-edge machine notation around a cap, or why there is none.
pub open spec fn single_cap_notation(c: Cap) -> Result<Seq<char>, Seq<char>> {
    let n = stdin_count(c.args@);
    if n == 0 {
        Err(
            "cap "@ + c.urn.text@
                + " takes no piped (stdin) input — the single-cap CLI drives exactly one input stream. Run it inside a .machine file instead."@,
        )
    } else if n > 1 {
        Err(
            "cap "@ + c.urn.text@ + " takes "@ + text::decimal(n)
                + " piped inputs — the single-cap CLI drives exactly one. Run it inside a .machine file instead."@,
        )
    } else if c.output is None {
        Err("cap "@ + c.urn.text@ + " declares no output — nothing for the CLI to emit."@)
    } else {
        Ok(
            "["@ + SINGLE_CAP_STEP_NAME@ + " "@ + c.urn.text@ + "]\n["@ + SINGLE_CAP_INPUT_NODE@
                + " -> "@ + SINGLE_CAP_STEP_NAME@ + " -> "@ + SINGLE_CAP_OUTPUT_NODE@ + "]"@,
        )
    }
}

/// Synthesize the one-edge machine notation around a resolved cap:
///
/// ```text
/// [step <full cap urn>]
/// [input -> step -> output]
/// ```
///
/// The header embeds the ALREADY-RESOLVED full cap URN, so no second
/// alias/registry lookup happens inside the parser. Requirements:
/// - exactly ONE stdin-fed arg (zero or several are hard errors naming the
///   cap), and
/// - a declared output.
pub fn synthesize_single_cap_notation(c: &Cap) -> (r: Result<String, String>)
    ensures
        match single_cap_notation(*c) {
            Ok(n) => r is Ok && r->Ok_0@ == n,
            Err(text) => r is Err && r->Err_0@ == text,
        },
{
    let n: usize = count_stdin(c);
    if n == 0 {
        return Err(
            "cap ".to_owned().concat(c.urn.text.as_str()).concat(
                " takes no piped (stdin) input — the single-cap CLI drives exactly one input stream. Run it inside a .machine file instead.",
            ),
        );
    }
    if n > 1 {
        return Err(
            "cap ".to_owned().concat(c.urn.text.as_str()).concat(" takes ").concat(
                decimal_usize(n).as_str(),
            ).concat(
                " piped inputs — the single-cap CLI drives exactly one. Run it inside a .machine file instead.",
            ),
        );
    }
    if c.output.is_none() {
        return Err(
            "cap ".to_owned().concat(c.urn.text.as_str()).concat(
                " declares no output — nothing for the CLI to emit.",
            ),
        );
    }
    Ok(
        "[".to_owned().concat(SINGLE_CAP_STEP_NAME).concat(" ").concat(
            c.urn.text.as_str(),
        ).concat("]\n[").concat(SINGLE_CAP_INPUT_NODE).concat(" -> ").concat(
            SINGLE_CAP_STEP_NAME,
        ).concat(" -> ").concat(SINGLE_CAP_OUTPUT_NODE).concat("]"),
    )
}

// ---------------------------------------------------------------------------
// Invocation mapping
// ---------------------------------------------------------------------------
/// The fully mapped invocation of a single cap.
#[derive(Debug, PartialEq)]
pub struct CapInvocation {
    /// Executor arg-stream bytes: `(arg media URN, raw bytes)`.
    pub cap_arguments: Vec<(String, Vec<u8>)>,
    /// Leftover positional tokens = input file paths (for the stdin arg).
    pub input_paths: Vec<String>,
}

/// Mapped arguments: media URN and bytes.
pub type Mapped = Seq<(Seq<char>, Seq<u8>)>;

/// The contents of mapped arguments.
pub open spec fn mapped_view(v: Seq<(String, Vec<u8>)>) -> Mapped {
    Seq::new(v.len(), |i: int| (v[i].0@, v[i].1@))
}

/// The arguments that are not fed from a stream.
pub open spec fn non_stdin(args: Seq<CapArg>) -> Seq<CapArg>
    decreases args.len(),
{
    if args.len() == 0 {
        Seq::empty()
    } else if cap::stdin_fed(args.last()) {
        non_stdin(args.drop_last())
    } else {
        non_stdin(args.drop_last()).push(args.last())
    }
}

/// What references point to.
pub open spec fn derefs(v: Seq<&CapArg>) -> Seq<CapArg> {
    Seq::new(v.len(), |i: int| *v[i])
}

fn non_stdin_args<'a>(c: &'a Cap) -> (r: Vec<&'a CapArg>)
    ensures
        derefs(r@) == non_stdin(c.args@),
{
    let mut r: Vec<&'a CapArg> = Vec::new();
    let mut i: usize = 0;
    proof {
        assert(c.args@.take(0) =~= Seq::<CapArg>::empty());
        assert(derefs(r@) =~= Seq::<CapArg>::empty());
    }
    while i < c.args.len()
        invariant
            i <= c.args@.len(),
            derefs(r@) == non_stdin(c.args@.take(i as int)),
        decreases c.args@.len() - i,
    {
        proof {
            assert(c.args@.take(i + 1).drop_last() =~= c.args@.take(i as int));
            assert(c.args@.take(i + 1).last() == c.args@[i as int]);
        }
        let ghost before = derefs(r@);
        if !c.args[i].has_stdin_source() {
            r.push(&c.args[i]);
            assert(derefs(r@) =~= before.push(c.args@[i as int]));
        }
        i = i + 1;
    }
    assert(c.args@.take(i as int) =~= c.args@);
    r
}

/// How an argument is addressed.
pub ghost enum Address {
    Flag(Seq<char>),
    Media(urn::TagMap),
}

/// Whether an argument answers to an address. Media URNs are compared by
/// equivalence, not string equality.
pub open spec fn answers(arg: CapArg, a: Address) -> bool {
    match a {
        Address::Flag(flag) => flags_of(arg.sources@).contains(flag),
        Address::Media(tags) => urn::media_parsed(arg.media_urn@) == Ok::<
            urn::TagMap,
            urn::UrnFault,
        >(tags),
    }
}

/// The arguments that answer to an address.
pub open spec fn answering(args: Seq<CapArg>, a: Address) -> Seq<CapArg>
    decreases args.len(),
{
    if args.len() == 0 {
        Seq::empty()
    } else if answers(args.last(), a) {
        answering(args.drop_last(), a).push(args.last())
    } else {
        answering(args.drop_last(), a)
    }
}

/// The flags of arguments, as they are typed.
pub open spec fn all_flags(args: Seq<CapArg>) -> Seq<Seq<char>>
    decreases args.len(),
{
    if args.len() == 0 {
        Seq::empty()
    } else {
        all_flags(args.drop_last()) + dashed(flags_of(args.last().sources@))
    }
}

/// The media URNs of arguments.
pub open spec fn all_urns(args: Seq<CapArg>) -> Seq<Seq<char>> {
    Seq::new(args.len(), |i: int| args[i].media_urn@)
}

/// The media URN of the one argument that declares a flag, or why there is not
/// one.
pub open spec fn flag_target(c: Cap, wanted: Seq<char>) -> Result<Seq<char>, Seq<char>> {
    let args = non_stdin(c.args@);
    let found = answering(args, Address::Flag(wanted));
    if found.len() == 1 {
        Ok(found[0].media_urn@)
    } else if found.len() == 0 {
        Err(
            "cap "@ + c.urn.text@ + " has no arg with CLI flag '--"@ + wanted
                + "'. Known flags: ["@ + text::join_text(all_flags(args), ", "@)
                + "]; any arg can also be addressed as --arg <media-urn>=<value>. Valid media URNs: ["@
                + text::join_text(all_urns(args), ", "@) + "]"@,
        )
    } else {
        Err(
            "flag '--"@ + wanted + "' is ambiguous: "@ + text::decimal(found.len())
                + " args of cap "@ + c.urn.text@
                + " declare it; address the arg by its media URN via --arg instead"@,
        )
    }
}

/// The media URN of the one argument that a URN denotes, or why there is not
/// one.
pub open spec fn media_target(c: Cap, name: Seq<char>) -> Result<Seq<char>, Seq<char>> {
    let args = non_stdin(c.args@);
    match urn::media_parsed(name) {
        Err(fault) => Err(
            "--arg name '"@ + name + "' is not a valid media URN: "@ + urn::fault_text(fault),
        ),
        Ok(tags) => {
            let found = answering(args, Address::Media(tags));
            if found.len() == 1 {
                Ok(found[0].media_urn@)
            } else if found.len() == 0 {
                Err(
                    "cap "@ + c.urn.text@ + " has no non-stdin arg with media URN '"@ + name
                        + "'. Valid arg media URNs: "@ + text::join_text(all_urns(args), ", "@),
                )
            } else {
                Err(
                    "--arg '"@ + name + "' is ambiguous: "@ + text::decimal(found.len())
                        + " args of cap "@ + c.urn.text@ + " share that media URN"@,
                )
            }
        },
    }
}

fn known_flags(args: &Vec<&CapArg>) -> (r: Vec<String>)
    ensures
        text::views(r@) == all_flags(derefs(args@)),
{
    let ghost all = derefs(args@);
    let mut r: Vec<String> = Vec::new();
    let mut i: usize = 0;
    proof {
        assert(all.take(0) =~= Seq::<CapArg>::empty());
        assert(text::views(r@) =~= Seq::<Seq<char>>::empty());
    }
    while i < args.len()
        invariant
            i <= args@.len(),
            all == derefs(args@),
            text::views(r@) == all_flags(all.take(i as int)),
        decreases args@.len() - i,
    {
        proof {
            assert(all.take(i + 1).drop_last() =~= all.take(i as int));
            assert(all.take(i + 1).last() == *args@[i as int]);
        }
        let more = dashed_flags(args[i]);
        crate::outcome::append_strings(&mut r, &more);
        i = i + 1;
    }
    assert(all.take(i as int) =~= all);
    r
}

fn known_urns(args: &Vec<&CapArg>) -> (r: Vec<String>)
    ensures
        text::views(r@) == all_urns(derefs(args@)),
{
    let ghost all = all_urns(derefs(args@));
    let mut r: Vec<String> = Vec::new();
    let mut i: usize = 0;
    assert(text::views(r@) =~= all.take(0));
    while i < args.len()
        invariant
            i <= args@.len(),
            all == all_urns(derefs(args@)),
            text::views(r@) == all.take(i as int),
        decreases args@.len() - i,
    {
        let ghost before = text::views(r@);
        r.push(args[i].media_urn.clone());
        proof {
            assert(text::views(r@) =~= before.push(args@[i as int].media_urn@));
            assert(all.take(i + 1) =~= all.take(i as int).push(args@[i as int].media_urn@));
        }
        i = i + 1;
    }
    assert(all.take(i as int) =~= all);
    r
}

fn resolve_flag(c: &Cap, args: &Vec<&CapArg>, wanted: &str) -> (r: Result<String, String>)
    requires
        derefs(args@) == non_stdin(c.args@),
    ensures
        match flag_target(*c, wanted@) {
            Ok(media) => r is Ok && r->Ok_0@ == media,
            Err(text) => r is Err && r->Err_0@ == text,
        },
{
    let ghost all = derefs(args@);
    let ghost address = Address::Flag(wanted@);
    let mut count: usize = 0;
    let mut first: usize = 0;
    let mut i: usize = 0;
    assert(all.take(0) =~= Seq::<CapArg>::empty());
    while i < args.len()
        invariant
            count <= i <= args@.len(),
            all == derefs(args@),
            address == Address::Flag(wanted@),
            count == answering(all.take(i as int), address).len(),
            count > 0 ==> first < args@.len() && *args@[first as int] == answering(
                all.take(i as int),
                address,
            )[0],
        decreases args@.len() - i,
    {
        proof {
            assert(all.take(i + 1).drop_last() =~= all.take(i as int));
            assert(all.take(i + 1).last() == *args@[i as int]);
        }
        let flags = flag_names(args[i]);
        if text::lists(&flags, wanted) {
            if count == 0 {
                first = i;
            }
            count = count + 1;
        }
        i = i + 1;
    }
    assert(all.take(i as int) =~= all);
    if count == 1 {
        Ok(args[first].media_urn.clone())
    } else if count == 0 {
        let flags = known_flags(args);
        let urns = known_urns(args);
        Err(
            "cap ".to_owned().concat(c.urn.text.as_str()).concat(
                " has no arg with CLI flag '--",
            ).concat(wanted).concat("'. Known flags: [").concat(join(&flags, ", ").as_str()).concat(
                "]; any arg can also be addressed as --arg <media-urn>=<value>. Valid media URNs: [",
            ).concat(join(&urns, ", ").as_str()).concat("]"),
        )
    } else {
        Err(
            "flag '--".to_owned().concat(wanted).concat("' is ambiguous: ").concat(
                decimal_usize(count).as_str(),
            ).concat(" args of cap ").concat(c.urn.text.as_str()).concat(
                " declare it; address the arg by its media URN via --arg instead",
            ),
        )
    }
}

fn resolve_media_urn(c: &Cap, args: &Vec<&CapArg>, name: &str) -> (r: Result<String, String>)
    requires
        derefs(args@) == non_stdin(c.args@),
    ensures
        match media_target(*c, name@) {
            Ok(media) => r is Ok && r->Ok_0@ == media,
            Err(text) => r is Err && r->Err_0@ == text,
        },
{
    let requested = match MediaUrn::from_string(name) {
        Ok(u) => u,
        Err(e) => {
            return Err(
                "--arg name '".to_owned().concat(name).concat(
                    "' is not a valid media URN: ",
                ).concat(e.detail().as_str()),
            );
        },
    };
    let ghost all = derefs(args@);
    let ghost address = Address::Media(requested@);
    let mut count: usize = 0;
    let mut first: usize = 0;
    let mut i: usize = 0;
    assert(all.take(0) =~= Seq::<CapArg>::empty());
    while i < args.len()
        invariant
            count <= i <= args@.len(),
            all == derefs(args@),
            address == Address::Media(requested@),
            count == answering(all.take(i as int), address).len(),
            count > 0 ==> first < args@.len() && *args@[first as int] == answering(
                all.take(i as int),
                address,
            )[0],
        decreases args@.len() - i,
    {
        proof {
            assert(all.take(i + 1).drop_last() =~= all.take(i as int));
            assert(all.take(i + 1).last() == *args@[i as int]);
        }
        if denotes(args[i].media_urn.as_str(), &requested) {
            if count == 0 {
                first = i;
            }
            count = count + 1;
        }
        i = i + 1;
    }
    assert(all.take(i as int) =~= all);
    if count == 1 {
        Ok(args[first].media_urn.clone())
    } else if count == 0 {
        let urns = known_urns(args);
        Err(
            "cap ".to_owned().concat(c.urn.text.as_str()).concat(
                " has no non-stdin arg with media URN '",
            ).concat(name).concat("'. Valid arg media URNs: ").concat(join(&urns, ", ").as_str()),
        )
    } else {
        Err(
            "--arg '".to_owned().concat(name).concat("' is ambiguous: ").concat(
                decimal_usize(count).as_str(),
            ).concat(" args of cap ").concat(c.urn.text.as_str()).concat(
                " share that media URN",
            ),
        )
    }
}

// Flags and bare tokens
/// Whether a token is a flag.
pub open spec fn is_flag(t: Seq<char>) -> bool {
    t.len() > 0 && t[0] == '-'
}

/// The name of a flag token, and its value where the token carries one.
pub open spec fn flag_parts(t: Seq<char>) -> (Seq<char>, Option<Seq<char>>) {
    let s = undashed(t);
    let at = text::index_from(s, '=', 0);
    if at < s.len() {
        (s.subrange(0, at), Some(s.subrange(at + 1, s.len() as int)))
    } else {
        (s, None)
    }
}

/// What scanning tokens gave: mapped flags and bare tokens.
pub ghost struct Scan {
    pub arguments: Mapped,
    pub positionals: Seq<Seq<char>>,
}

/// Scan tokens behind what was scanned: a flag takes the value that it carries,
/// else the following token.
pub open spec fn scan(c: Cap, tokens: Seq<Seq<char>>, st: Scan) -> Result<Scan, Seq<char>>
    decreases tokens.len(),
{
    if tokens.len() == 0 {
        Ok(st)
    } else if is_flag(tokens[0]) {
        let (flag, value) = flag_parts(tokens[0]);
        match flag_target(c, flag) {
            Err(text) => Err(text),
            Ok(media) => match value {
                Some(v) => scan(
                    c,
                    tokens.skip(1),
                    Scan {
                        arguments: st.arguments.push((media, vstd::utf8::encode_utf8(v))),
                        ..st
                    },
                ),
                None => if tokens.len() > 1 {
                    scan(
                        c,
                        tokens.skip(2),
                        Scan {
                            arguments: st.arguments.push(
                                (media, vstd::utf8::encode_utf8(tokens[1])),
                            ),
                            ..st
                        },
                    )
                } else {
                    Err("flag '--"@ + flag + "' requires a value"@)
                },
            },
        }
    } else {
        scan(c, tokens.skip(1), Scan { positionals: st.positionals.push(tokens[0]), ..st })
    }
}

fn split_flag(token: &str) -> (r: (String, Option<String>))
    ensures
        r.0@ == flag_parts(token@).0,
        text::opt_view(r.1) == flag_parts(token@).1,
{
    let stripped = undash(token);
    let v = chars_of(stripped.as_str());
    let n: usize = v.len();
    let mut at: usize = 0;
    while at < n && v[at] != '='
        invariant
            n == v@.len(),
            at <= n,
            text::index_from(v@, '=', 0) == text::index_from(v@, '=', at as int),
        decreases n - at,
    {
        at = at + 1;
    }
    if at < n {
        (string_of(&v, 0, at), Some(string_of(&v, at + 1, n)))
    } else {
        (stripped, None)
    }
}

fn push_mapped(to: &mut Vec<(String, Vec<u8>)>, media: String, bytes: Vec<u8>)
    ensures
        mapped_view(final(to)@) == mapped_view(old(to)@).push((media@, bytes@)),
{
    let ghost before = mapped_view(to@);
    let ghost entry = (media@, bytes@);
    to.push((media, bytes));
    assert(mapped_view(to@) =~= before.push(entry));
}

fn utf8_bytes(s: &str) -> (r: Vec<u8>)
    ensures
        r@ == vstd::utf8::encode_utf8(s@),
{
    slice_to_vec(s.as_bytes())
}

fn scan_tokens(c: &Cap, args: &Vec<&CapArg>, tokens: &Vec<String>) -> (r: Result<
    (Vec<(String, Vec<u8>)>, Vec<String>),
    String,
>)
    requires
        derefs(args@) == non_stdin(c.args@),
    ensures
        match scan(
            *c,
            text::views(tokens@),
            Scan { arguments: Seq::empty(), positionals: Seq::empty() },
        ) {
            Ok(st) => r is Ok && mapped_view(r->Ok_0.0@) == st.arguments && text::views(
                r->Ok_0.1@,
            ) == st.positionals,
            Err(text) => r is Err && r->Err_0@ == text,
        },
{
    let ghost all = text::views(tokens@);
    let ghost none = Scan { arguments: Seq::empty(), positionals: Seq::empty() };
    let mut arguments: Vec<(String, Vec<u8>)> = Vec::new();
    let mut positionals: Vec<String> = Vec::new();
    let mut idx: usize = 0;
    proof {
        assert(all.skip(0) =~= all);
        assert(mapped_view(arguments@) =~= none.arguments);
        assert(text::views(positionals@) =~= none.positionals);
    }
    while idx < tokens.len()
        invariant
            idx <= tokens@.len(),
            all == text::views(tokens@),
            none == (Scan { arguments: Seq::empty(), positionals: Seq::empty() }),
            derefs(args@) == non_stdin(c.args@),
            scan(*c, all, none) == scan(
                *c,
                all.skip(idx as int),
                Scan {
                    arguments: mapped_view(arguments@),
                    positionals: text::views(positionals@),
                },
            ),
        decreases tokens@.len() - idx,
    {
        let token = tokens[idx].as_str();
        let ghost rest = all.skip(idx as int);
        proof {
            assert(rest[0] == token@);
            assert(rest.skip(1) =~= all.skip(idx + 1));
            if idx + 1 < all.len() {
                assert(rest[1] == all[idx + 1]);
                assert(rest.skip(2) =~= all.skip(idx + 2));
            }
        }
        let chars = chars_of(token);
        if chars.len() > 0 && chars[0] == '-' {
            let (flag, inline_value) = split_flag(token);
            let media = match resolve_flag(c, args, flag.as_str()) {
                Ok(m) => m,
                Err(e) => {
                    return Err(e);
                },
            };
            match inline_value {
                Some(value) => {
                    push_mapped(&mut arguments, media, utf8_bytes(value.as_str()));
                    idx = idx + 1;
                },
                None => {
                    if tokens.len() - idx <= 1 {
                        return Err(
                            "flag '--".to_owned().concat(flag.as_str()).concat(
                                "' requires a value",
                            ),
                        );
                    }
                    push_mapped(&mut arguments, media, utf8_bytes(tokens[idx + 1].as_str()));
                    idx = idx + 2;
                },
            }
        } else {
            let ghost before = text::views(positionals@);
            positionals.push(token.to_owned());
            assert(text::views(positionals@) =~= before.push(token@));
            idx = idx + 1;
        }
    }
    assert(all.skip(idx as int) =~= Seq::<Seq<char>>::empty());
    Ok((arguments, positionals))
}

// Positions
/// The declared position of an argument that has one.
pub open spec fn place_of(arg: CapArg) -> int {
    position_of(arg)->0 as int
}

/// Insert an argument behind all that do not come after it.
pub open spec fn placed(sorted: Seq<CapArg>, arg: CapArg) -> Seq<CapArg>
    decreases sorted.len(),
{
    if sorted.len() == 0 {
        seq![arg]
    } else if place_of(sorted.last()) <= place_of(arg) {
        sorted.push(arg)
    } else {
        placed(sorted.drop_last(), arg).push(sorted.last())
    }
}

/// The arguments with a declared position, in position order; equal positions
/// keep the order of declaration.
pub open spec fn by_position(args: Seq<CapArg>) -> Seq<CapArg>
    decreases args.len(),
{
    if args.len() == 0 {
        Seq::empty()
    } else if position_of(args.last()) is Some {
        placed(by_position(args.drop_last()), args.last())
    } else {
        by_position(args.drop_last())
    }
}

/// Whether an argument was supplied.
pub open spec fn supplied(arguments: Mapped, media: Seq<char>) -> bool {
    exists|i: int| 0 <= i < arguments.len() && (#[trigger] arguments[i]).0 == media
}

/// What filling positions gave: mapped arguments and the tokens left over.
pub ghost struct Filled {
    pub arguments: Mapped,
    pub rest: Seq<Seq<char>>,
}

/// Fill positional arguments with bare tokens, in order. One that a flag or an
/// explicit pair already satisfies is not bound again: its slot stays open for
/// input paths. `explicit` holds what the explicit pairs supply.
pub open spec fn fill(
    args: Seq<CapArg>,
    tokens: Seq<Seq<char>>,
    arguments: Mapped,
    explicit: Mapped,
) -> Filled
    decreases args.len(),
{
    if args.len() == 0 {
        Filled { arguments, rest: tokens }
    } else if supplied(arguments, args[0].media_urn@) || supplied(explicit, args[0].media_urn@) {
        fill(args.skip(1), tokens, arguments, explicit)
    } else if tokens.len() == 0 {
        Filled { arguments, rest: tokens }
    } else {
        fill(
            args.skip(1),
            tokens.skip(1),
            arguments.push((args[0].media_urn@, vstd::utf8::encode_utf8(tokens[0]))),
            explicit,
        )
    }
}

fn positional_args<'a>(args: &Vec<&'a CapArg>) -> (r: Vec<&'a CapArg>)
    ensures
        derefs(r@) == by_position(derefs(args@)),
        forall|i: int| 0 <= i < r@.len() ==> position_of(*#[trigger] r@[i]) is Some,
{
    let ghost all = derefs(args@);
    let mut r: Vec<&'a CapArg> = Vec::new();
    let mut i: usize = 0;
    proof {
        assert(all.take(0) =~= Seq::<CapArg>::empty());
        assert(derefs(r@) =~= Seq::<CapArg>::empty());
    }
    while i < args.len()
        invariant
            i <= args@.len(),
            all == derefs(args@),
            derefs(r@) == by_position(all.take(i as int)),
            forall|x: int| 0 <= x < r@.len() ==> position_of(*#[trigger] r@[x]) is Some,
        decreases args@.len() - i,
    {
        proof {
            assert(all.take(i + 1).drop_last() =~= all.take(i as int));
            assert(all.take(i + 1).last() == *args@[i as int]);
        }
        let arg: &'a CapArg = args[i];
        if let Some(position) = declared_position(arg) {
            let ghost sorted = derefs(r@);
            let ghost before = r@;
            let mut j: usize = r.len();
            proof {
                assert(sorted.take(j as int) =~= sorted);
                assert(placed(sorted.take(j as int), *arg) + sorted.skip(j as int) =~= placed(
                    sorted,
                    *arg,
                ));
            }
            let mut going: bool = true;
            while j > 0 && going
                invariant
                    j <= r@.len(),
                    r@ == before,
                    sorted == derefs(before),
                    position_of(*arg) == Some(position),
                    forall|x: int| 0 <= x < r@.len() ==> position_of(*#[trigger] r@[x]) is Some,
                    placed(sorted, *arg) == placed(sorted.take(j as int), *arg) + sorted.skip(
                        j as int,
                    ),
                    !going ==> j > 0 && place_of(sorted[j - 1]) <= place_of(*arg),
                decreases j, if going { 1int } else { 0int },
            {
                let other = declared_position(r[j - 1]);
                assert(position_of(*r@[j - 1]) is Some);
                assert(sorted.take(j as int).last() == *r@[j - 1]);
                if let Some(p) = other {
                    if p <= position {
                        going = false;
                    } else {
                        proof {
                            assert(sorted.take(j as int).drop_last() =~= sorted.take(j - 1));
                            assert(placed(sorted.take(j - 1), *arg).push(sorted[j - 1])
                                + sorted.skip(j as int) =~= placed(sorted.take(j - 1), *arg)
                                + sorted.skip(j - 1));
                        }
                        j = j - 1;
                    }
                }
            }
            proof {
                let short = sorted.take(j as int);
                if j > 0 {
                    assert(short.last() == sorted[j - 1]);
                }
                assert(placed(short, *arg) =~= short.push(*arg));
            }
            r.insert(j, arg);
            proof {
                assert(derefs(r@) =~= sorted.take(j as int).push(*arg) + sorted.skip(j as int));
                assert forall|x: int| 0 <= x < r@.len() implies position_of(
                    *#[trigger] r@[x],
                ) is Some by {
                    if x < j {
                        assert(r@[x] == before[x]);
                    } else if x > j {
                        assert(r@[x] == before[x - 1]);
                    }
                }
            }
        }
        i = i + 1;
    }
    assert(all.take(i as int) =~= all);
    r
}

fn is_supplied(arguments: &Vec<(String, Vec<u8>)>, media: &str) -> (r: bool)
    ensures
        r == supplied(mapped_view(arguments@), media@),
{
    let mut i: usize = 0;
    while i < arguments.len()
        invariant
            i <= arguments@.len(),
            forall|j: int|
                0 <= j < i ==> (#[trigger] mapped_view(arguments@)[j]).0 != media@,
        decreases arguments@.len() - i,
    {
        if same(arguments[i].0.as_str(), media) {
            assert(mapped_view(arguments@)[i as int].0 == media@);
            return true;
        }
        i = i + 1;
    }
    false
}

/// The bare tokens from `from` on.
fn tokens_from(tokens: &Vec<String>, from: usize) -> (r: Vec<String>)
    requires
        from <= tokens@.len(),
    ensures
        text::views(r@) == text::views(tokens@).skip(from as int),
{
    let ghost all = text::views(tokens@);
    let mut r: Vec<String> = Vec::new();
    let mut i: usize = from;
    assert(text::views(r@) =~= all.subrange(from as int, from as int));
    while i < tokens.len()
        invariant
            from <= i <= tokens@.len(),
            all == text::views(tokens@),
            text::views(r@) == all.subrange(from as int, i as int),
        decreases tokens@.len() - i,
    {
        let ghost before = text::views(r@);
        r.push(tokens[i].clone());
        proof {
            assert(text::views(r@) =~= before.push(all[i as int]));
            assert(all.subrange(from as int, i + 1) =~= all.subrange(from as int, i as int).push(
                all[i as int],
            ));
        }
        i = i + 1;
    }
    assert(all.subrange(from as int, i as int) =~= all.skip(from as int));
    r
}

fn fill_positions(
    args: &Vec<&CapArg>,
    tokens: &Vec<String>,
    arguments: &mut Vec<(String, Vec<u8>)>,
    explicit: &Vec<(String, Vec<u8>)>,
) -> (rest: Vec<String>)
    ensures
        ({
            let filled = fill(
                by_position(derefs(args@)),
                text::views(tokens@),
                mapped_view(old(arguments)@),
                mapped_view(explicit@),
            );
            &&& mapped_view(final(arguments)@) == filled.arguments
            &&& text::views(rest@) == filled.rest
        }),
{
    let sorted = positional_args(args);
    let ghost slots = derefs(sorted@);
    let ghost all = text::views(tokens@);
    let ghost start = mapped_view(arguments@);
    let ghost pairs = mapped_view(explicit@);
    let mut used: usize = 0;
    let mut i: usize = 0;
    let mut going: bool = true;
    proof {
        assert(slots.skip(0) =~= slots);
        assert(all.skip(0) =~= all);
    }
    while i < sorted.len() && going
        invariant
            i <= sorted@.len(),
            used <= tokens@.len(),
            slots == derefs(sorted@),
            all == text::views(tokens@),
            pairs == mapped_view(explicit@),
            going ==> fill(slots, all, start, pairs) == fill(
                slots.skip(i as int),
                all.skip(used as int),
                mapped_view(arguments@),
                pairs,
            ),
            !going ==> fill(slots, all, start, pairs) == (Filled {
                arguments: mapped_view(arguments@),
                rest: all.skip(used as int),
            }),
        decreases sorted@.len() - i, if going { 1int } else { 0int },
    {
        proof {
            assert(slots.skip(i as int)[0] == *sorted@[i as int]);
            assert(slots.skip(i as int).skip(1) =~= slots.skip(i + 1));
        }
        if is_supplied(arguments, sorted[i].media_urn.as_str()) || is_supplied(
            explicit,
            sorted[i].media_urn.as_str(),
        ) {
            i = i + 1;
        } else if used < tokens.len() {
            proof {
                assert(all.skip(used as int)[0] == tokens@[used as int]@);
                assert(all.skip(used as int).skip(1) =~= all.skip(used + 1));
            }
            push_mapped(
                arguments,
                sorted[i].media_urn.clone(),
                utf8_bytes(tokens[used].as_str()),
            );
            used = used + 1;
            i = i + 1;
        } else {
            going = false;
        }
    }
    proof {
        if going {
            assert(slots.skip(i as int) =~= Seq::<CapArg>::empty());
        }
    }
    tokens_from(tokens, used)
}

// Explicit pairs
/// What reading the file of an explicit pair gave, where its value names one.
pub type FileReads = Vec<Option<Result<Vec<u8>, String>>>;

/// The file that a value names: `@<path>`.
pub open spec fn named_file(value: Seq<char>) -> Option<Seq<char>> {
    if value.len() > 0 && value[0] == '@' {
        Some(value.subrange(1, value.len() as int))
    } else {
        None
    }
}

/// The file that an explicit value names, to be read before the invocation is
/// mapped.
pub fn file_argument(value: &str) -> (r: Option<String>)
    ensures
        text::opt_view(r) == named_file(value@),
{
    let v = chars_of(value);
    if v.len() > 0 && v[0] == '@' {
        let n: usize = v.len();
        Some(string_of(&v, 1, n))
    } else {
        None
    }
}

/// The argument that an explicit name addresses: a media URN has a `:`, a flag
/// has none.
pub open spec fn explicit_target(c: Cap, name: Seq<char>) -> Result<Seq<char>, Seq<char>> {
    if name.contains(':') {
        media_target(c, name)
    } else {
        flag_target(c, undashed(name))
    }
}

/// The bytes of an explicit value, or why there are none.
pub open spec fn explicit_bytes(
    name: Seq<char>,
    value: Seq<char>,
    read: Option<Result<Vec<u8>, String>>,
) -> Result<Seq<u8>, Seq<char>> {
    match named_file(value) {
        Some(path) => match read->0 {
            Ok(bytes) => Ok(bytes@),
            Err(why) => Err(
                "--arg "@ + name + "=@"@ + path + ": failed to read file: "@ + why@,
            ),
        },
        None => Ok(vstd::utf8::encode_utf8(value)),
    }
}

/// Map explicit pairs, behind those that were mapped; the first pair at fault
/// decides.
pub open spec fn map_explicit(
    c: Cap,
    pairs: Seq<(String, String)>,
    reads: Seq<Option<Result<Vec<u8>, String>>>,
    arguments: Mapped,
) -> Result<Mapped, Seq<char>>
    decreases pairs.len(),
{
    if pairs.len() == 0 {
        Ok(arguments)
    } else {
        match explicit_target(c, pairs[0].0@) {
            Err(text) => Err(text),
            Ok(media) => match explicit_bytes(pairs[0].0@, pairs[0].1@, reads[0]) {
                Err(text) => Err(text),
                Ok(bytes) => map_explicit(
                    c,
                    pairs.skip(1),
                    reads.skip(1),
                    arguments.push((media, bytes)),
                ),
            },
        }
    }
}

/// Whether every explicit value that names a file comes with what reading it
/// gave.
pub open spec fn files_are_read(
    pairs: Seq<(String, String)>,
    reads: Seq<Option<Result<Vec<u8>, String>>>,
) -> bool {
    &&& pairs.len() == reads.len()
    &&& forall|i: int|
        0 <= i < pairs.len() && named_file((#[trigger] pairs[i]).1@) is Some ==> reads[i] is Some
}

fn map_pairs(
    c: &Cap,
    args: &Vec<&CapArg>,
    pairs: &Vec<(String, String)>,
    reads: &FileReads,
) -> (r: Result<Vec<(String, Vec<u8>)>, String>)
    requires
        derefs(args@) == non_stdin(c.args@),
        files_are_read(pairs@, reads@),
    ensures
        match map_explicit(*c, pairs@, reads@, Seq::empty()) {
            Ok(m) => r is Ok && mapped_view(r->Ok_0@) == m,
            Err(text) => r is Err && r->Err_0@ == text,
        },
{
    let mut arguments: Vec<(String, Vec<u8>)> = Vec::new();
    let ghost start: Mapped = Seq::empty();
    let mut i: usize = 0;
    proof {
        assert(mapped_view(arguments@) =~= start);
        assert(pairs@.skip(0) =~= pairs@);
        assert(reads@.skip(0) =~= reads@);
    }
    while i < pairs.len()
        invariant
            i <= pairs@.len(),
            derefs(args@) == non_stdin(c.args@),
            files_are_read(pairs@, reads@),
            start == Seq::<(Seq<char>, Seq<u8>)>::empty(),
            map_explicit(*c, pairs@, reads@, start) == map_explicit(
                *c,
                pairs@.skip(i as int),
                reads@.skip(i as int),
                mapped_view(arguments@),
            ),
        decreases pairs@.len() - i,
    {
        proof {
            assert(pairs@.skip(i as int)[0] == pairs@[i as int]);
            assert(reads@.skip(i as int)[0] == reads@[i as int]);
            assert(pairs@.skip(i as int).skip(1) =~= pairs@.skip(i + 1));
            assert(reads@.skip(i as int).skip(1) =~= reads@.skip(i + 1));
        }
        let name = pairs[i].0.as_str();
        let value = pairs[i].1.as_str();
        let target = if contains_char(name, ':') {
            resolve_media_urn(c, args, name)
        } else {
            resolve_flag(c, args, undash(name).as_str())
        };
        let media = match target {
            Ok(m) => m,
            Err(e) => {
                return Err(e);
            },
        };
        let bytes = match file_argument(value) {
            Some(path) => match &reads[i] {
                Some(Ok(b)) => clone_bytes(b),
                Some(Err(why)) => {
                    return Err(
                        "--arg ".to_owned().concat(name).concat("=@").concat(
                            path.as_str(),
                        ).concat(": failed to read file: ").concat(why.as_str()),
                    );
                },
                None => Vec::new(),
            },
            None => utf8_bytes(value),
        };
        push_mapped(&mut arguments, media, bytes);
        i = i + 1;
    }
    assert(pairs@.skip(i as int) =~= Seq::<(String, String)>::empty());
    Ok(arguments)
}

// Required options
/// Whether an argument must be supplied and was not.
pub open spec fn is_missing(arg: CapArg, arguments: Mapped) -> bool {
    arg.required && arg.default_value is None && !supplied(arguments, arg.media_urn@)
}

/// The rendered lines of the missing arguments.
pub open spec fn missing_lines(args: Seq<CapArg>, arguments: Mapped) -> Seq<Seq<char>>
    decreases args.len(),
{
    if args.len() == 0 {
        Seq::empty()
    } else if is_missing(args.last(), arguments) {
        missing_lines(args.drop_last(), arguments).push(option_line(args.last()))
    } else {
        missing_lines(args.drop_last(), arguments)
    }
}

/// An invocation mapped onto a cap's interface, or why it cannot be. The
/// arguments stand in this order: those of flags, those of positions, those of
/// explicit pairs.
pub open spec fn invocation(
    c: Cap,
    tokens: Seq<Seq<char>>,
    pairs: Seq<(String, String)>,
    reads: Seq<Option<Result<Vec<u8>, String>>>,
) -> Result<Filled, Seq<char>> {
    let args = non_stdin(c.args@);
    match scan(c, tokens, Scan { arguments: Seq::empty(), positionals: Seq::empty() }) {
        Err(text) => Err(text),
        Ok(st) => match map_explicit(c, pairs, reads, Seq::empty()) {
            Err(text) => Err(text),
            Ok(explicit) => {
                let filled = fill(by_position(args), st.positionals, st.arguments, explicit);
                let arguments = filled.arguments + explicit;
                let missing = missing_lines(args, arguments);
                if missing.len() > 0 {
                    Err(
                        "cap "@ + c.urn.text@ + " is missing required options:\n"@
                            + text::join_text(missing, "\n"@),
                    )
                } else {
                    Ok(Filled { arguments, rest: filled.rest })
                }
            },
        },
    }
}

proof fn lemma_none_missing(args: Seq<CapArg>, arguments: Mapped)
    requires
        missing_lines(args, arguments).len() == 0,
    ensures
        forall|i: int| 0 <= i < args.len() ==> !is_missing(#[trigger] args[i], arguments),
    decreases args.len(),
{
    if args.len() > 0 {
        lemma_none_missing(args.drop_last(), arguments);
        assert forall|i: int| 0 <= i < args.len() implies !is_missing(
            #[trigger] args[i],
            arguments,
        ) by {
            if i < args.len() - 1 {
                assert(args.drop_last()[i] == args[i]);
            }
        }
    }
}

proof fn lemma_non_stdin_keeps(args: Seq<CapArg>, i: int)
    requires
        0 <= i < args.len(),
        forall|k: int|
            0 <= k < args[i].sources@.len() ==> !(#[trigger] args[i].sources@[k] is Stdin),
    ensures
        non_stdin(args).contains(args[i]),
    decreases args.len(),
{
    let short = args.drop_last();
    let kept = non_stdin(short);
    if i == args.len() - 1 {
        cap::lemma_no_stdin_source(args[i].sources@, 0);
        assert(!cap::stdin_fed(args[i]));
        assert(non_stdin(args)[kept.len() as int] == args[i]);
    } else {
        assert(short[i] == args[i]);
        lemma_non_stdin_keeps(short, i);
        let k = choose|k: int| 0 <= k < kept.len() && kept[k] == args[i];
        assert(non_stdin(args)[k] == args[i]);
    }
}

/// Map an invocation's remaining tokens + explicit pairs onto the cap's
/// declared interface:
///
/// - a token starting with `-` must match a declared flag (dashes normalized);
///   its value is the following token, or the `=`-suffix in `--flag=value`
///   form. An unknown flag is a hard error listing the cap's flags and arg
///   media URNs — never silently ignored.
/// - bare tokens first fill the cap's `Position`-declared args in declared
///   position order; tokens beyond the declared positions are input file paths
///   for the stdin arg. A positional that a flag or an explicit pair already
///   satisfies keeps its slot open for input paths rather than double-binding.
/// - explicit pairs address any non-stdin arg by flag name or media URN
///   (compared by equivalence, not string equality); a value `@<path>` stands
///   for the file's bytes, which `reads` brings.
///
/// Pre-flight: every REQUIRED non-stdin arg without a default must end up
/// supplied — the error enumerates exactly what is missing and how to pass it,
/// instead of letting the cartridge fail mid-execution.
pub fn map_invocation(
    c: &Cap,
    tokens: &Vec<String>,
    explicit_pairs: &Vec<(String, String)>,
    reads: &FileReads,
) -> (r: Result<CapInvocation, String>)
    requires
        files_are_read(explicit_pairs@, reads@),
    ensures
        match invocation(*c, text::views(tokens@), explicit_pairs@, reads@) {
            Ok(mapped) => r is Ok && mapped_view(r->Ok_0.cap_arguments@) == mapped.arguments
                && text::views(r->Ok_0.input_paths@) == mapped.rest,
            Err(text) => r is Err && r->Err_0@ == text,
        },
        r is Ok ==> forall|i: int|
            0 <= i < non_stdin(c.args@).len() ==> !is_missing(
                #[trigger] non_stdin(c.args@)[i],
                mapped_view(r->Ok_0.cap_arguments@),
            ),
        r is Ok ==> forall|i: int|
            0 <= i < c.args@.len() && (#[trigger] c.args@[i]).required
                && c.args@[i].default_value is None && (forall|k: int|
                0 <= k < c.args@[i].sources@.len() ==> !(
                #[trigger] c.args@[i].sources@[k] is Stdin)) ==> exists|j: int|
                0 <= j < r->Ok_0.cap_arguments@.len() && (#[trigger] r->Ok_0.cap_arguments@[j]).0@
                    == c.args@[i].media_urn@,
{
    let args = non_stdin_args(c);
    // Native flags + bare tokens.
    let (mut cap_arguments, positionals) = match scan_tokens(c, &args, tokens) {
        Ok(s) => s,
        Err(e) => {
            return Err(e);
        },
    };
    // Explicit pairs: what they address is not filled from bare tokens.
    let mut explicit = match map_pairs(c, &args, explicit_pairs, reads) {
        Ok(m) => m,
        Err(e) => {
            return Err(e);
        },
    };
    // Bare tokens fill the other positional args in position order; the rest are
    // input paths.
    let input_paths = fill_positions(&args, &positionals, &mut cap_arguments, &explicit);
    let ghost placed_so_far = cap_arguments@;
    let ghost pairs_mapped = explicit@;
    cap_arguments.append(&mut explicit);
    assert(mapped_view(cap_arguments@) =~= mapped_view(placed_so_far) + mapped_view(pairs_mapped));
    // Required, defaultless, unsupplied args are an error now, not a cartridge
    // failure later.
    let ghost all = derefs(args@);
    let ghost mapped = mapped_view(cap_arguments@);
    let mut missing: Vec<String> = Vec::new();
    let mut i: usize = 0;
    proof {
        assert(all.take(0) =~= Seq::<CapArg>::empty());
        assert(text::views(missing@) =~= Seq::<Seq<char>>::empty());
    }
    while i < args.len()
        invariant
            i <= args@.len(),
            all == derefs(args@),
            mapped == mapped_view(cap_arguments@),
            text::views(missing@) == missing_lines(all.take(i as int), mapped),
        decreases args@.len() - i,
    {
        proof {
            assert(all.take(i + 1).drop_last() =~= all.take(i as int));
            assert(all.take(i + 1).last() == *args@[i as int]);
        }
        let arg = args[i];
        if arg.required && arg.default_value.is_none() && !is_supplied(
            &cap_arguments,
            arg.media_urn.as_str(),
        ) {
            let ghost before = text::views(missing@);
            let line = render_option_line(arg);
            let ghost l = line@;
            missing.push(line);
            assert(text::views(missing@) =~= before.push(l));
        }
        i = i + 1;
    }
    assert(all.take(i as int) =~= all);
    assert(text::views(missing@).len() == missing@.len());
    if missing.len() > 0 {
        return Err(
            "cap ".to_owned().concat(c.urn.text.as_str()).concat(
                " is missing required options:\n",
            ).concat(join(&missing, "\n").as_str()),
        );
    }
    proof {
        lemma_none_missing(all, mapped);
        assert forall|x: int|
            0 <= x < c.args@.len() && (#[trigger] c.args@[x]).required
                && c.args@[x].default_value is None && (forall|k: int|
                0 <= k < c.args@[x].sources@.len() ==> !(
                #[trigger] c.args@[x].sources@[k] is Stdin)) implies exists|j: int|
            0 <= j < cap_arguments@.len() && (#[trigger] cap_arguments@[j]).0@
                == c.args@[x].media_urn@ by {
            lemma_non_stdin_keeps(c.args@, x);
            let k = choose|k: int| 0 <= k < all.len() && all[k] == c.args@[x];
            assert(!is_missing(all[k], mapped));
            assert(supplied(mapped, c.args@[x].media_urn@));
            let j = choose|j: int| 0 <= j < mapped.len() && (#[trigger] mapped[j]).0
                == c.args@[x].media_urn@;
            assert(cap_arguments@[j].0@ == c.args@[x].media_urn@);
        }
    }
    Ok(CapInvocation { cap_arguments, input_paths })
}

/// Whether no argument comes after a position.
spec fn all_at_most(args: Seq<CapArg>, m: int) -> bool {
    forall|i: int| 0 <= i < args.len() ==> place_of(#[trigger] args[i]) <= m
}

/// Whether arguments stand in position order.
spec fn in_order(args: Seq<CapArg>) -> bool {
    forall|i: int, j: int|
        0 <= i < j < args.len() ==> place_of(#[trigger] args[i]) <= place_of(#[trigger] args[j])
}

proof fn lemma_placed_bound(sorted: Seq<CapArg>, arg: CapArg, m: int)
    requires
        all_at_most(sorted, m),
        place_of(arg) <= m,
    ensures
        all_at_most(placed(sorted, arg), m),
    decreases sorted.len(),
{
    if sorted.len() > 0 && place_of(sorted.last()) > place_of(arg) {
        lemma_placed_bound(sorted.drop_last(), arg, m);
    }
}

proof fn lemma_placed(sorted: Seq<CapArg>, arg: CapArg)
    requires
        in_order(sorted),
    ensures
        in_order(placed(sorted, arg)),
    decreases sorted.len(),
{
    if sorted.len() > 0 && place_of(sorted.last()) > place_of(arg) {
        let short = sorted.drop_last();
        lemma_placed(short, arg);
        assert(all_at_most(short, place_of(sorted.last()))) by {
            assert forall|i: int| 0 <= i < short.len() implies place_of(#[trigger] short[i])
                <= place_of(sorted.last()) by {
                assert(short[i] == sorted[i]);
            }
        }
        lemma_placed_bound(short, arg, place_of(sorted.last()));
    } else if sorted.len() > 0 {
        assert(all_at_most(sorted, place_of(arg))) by {
            assert forall|i: int| 0 <= i < sorted.len() implies place_of(#[trigger] sorted[i])
                <= place_of(arg) by {
                if i < sorted.len() - 1 {
                    assert(place_of(sorted[i]) <= place_of(sorted[sorted.len() - 1]));
                }
            }
        }
    }
}

/// Bare tokens are bound in declared position order.
pub proof fn positions_are_filled_in_order(args: Seq<CapArg>, i: int, j: int)
    requires
        0 <= i < j < by_position(args).len(),
    ensures
        place_of(by_position(args)[i]) <= place_of(by_position(args)[j]),
{
    lemma_by_position(args);
    assert(place_of(by_position(args)[i]) <= place_of(by_position(args)[j]));
}

proof fn lemma_by_position(args: Seq<CapArg>)
    ensures
        in_order(by_position(args)),
    decreases args.len(),
{
    if args.len() > 0 {
        lemma_by_position(args.drop_last());
        if position_of(args.last()) is Some {
            lemma_placed(by_position(args.drop_last()), args.last());
        }
    }
}

// ---------------------------------------------------------------------------
// Laws
// ---------------------------------------------------------------------------
/// Whether the last token is a flag that still waits for its value.
pub open spec fn awaits_value(tokens: Seq<Seq<char>>) -> bool
    decreases tokens.len(),
{
    if tokens.len() == 0 {
        false
    } else if is_flag(tokens[0]) && flag_parts(tokens[0]).1 is None {
        tokens.len() == 1 || awaits_value(tokens.skip(2))
    } else {
        awaits_value(tokens.skip(1))
    }
}

/// Scanning goes on behind tokens that are complete.
proof fn lemma_scan_behind(c: Cap, front: Seq<Seq<char>>, rest: Seq<Seq<char>>, st: Scan)
    requires
        !awaits_value(front),
    ensures
        scan(c, front + rest, st) == match scan(c, front, st) {
            Ok(mid) => scan(c, rest, mid),
            Err(text) => Err(text),
        },
    decreases front.len(),
{
    let all = front + rest;
    if front.len() == 0 {
        assert(all =~= rest);
    } else {
        assert(all[0] == front[0]);
        assert(all.skip(1) =~= front.skip(1) + rest);
        if is_flag(front[0]) {
            let (flag, value) = flag_parts(front[0]);
            if let Ok(media) = flag_target(c, flag) {
                match value {
                    Some(v) => {
                        let next = Scan {
                            arguments: st.arguments.push((media, vstd::utf8::encode_utf8(v))),
                            ..st
                        };
                        lemma_scan_behind(c, front.skip(1), rest, next);
                    },
                    None => {
                        assert(all[1] == front[1]);
                        assert(all.skip(2) =~= front.skip(2) + rest);
                        let next = Scan {
                            arguments: st.arguments.push(
                                (media, vstd::utf8::encode_utf8(front[1])),
                            ),
                            ..st
                        };
                        lemma_scan_behind(c, front.skip(2), rest, next);
                    },
                }
            }
        } else {
            let next = Scan { positionals: st.positionals.push(front[0]), ..st };
            lemma_scan_behind(c, front.skip(1), rest, next);
        }
    }
}

/// Stripping dashes stops at an `=`.
proof fn lemma_undashed_before_value(t: Seq<char>, value: Seq<char>)
    ensures
        undashed(t + seq!['='] + value) == undashed(t) + seq!['='] + value,
        !t.contains('=') ==> !undashed(t).contains('='),
    decreases t.len(),
{
    let whole = t + seq!['='] + value;
    if t.len() > 0 && t[0] == '-' {
        let tail = t.subrange(1, t.len() as int);
        lemma_undashed_before_value(tail, value);
        assert(whole[0] == '-');
        assert(whole.subrange(1, whole.len() as int) =~= tail + seq!['='] + value);
        if tail.contains('=') {
            let k = choose|k: int| 0 <= k < tail.len() && tail[k] == '=';
            assert(t[k + 1] == '=');
        }
    } else {
        assert(whole[0] != '-') by {
            if t.len() > 0 {
                assert(whole[0] == t[0]);
            } else {
                assert(whole[0] == '=');
            }
        }
    }
}

/// A flag token with a value behind `=` has the name of the bare flag, and that
/// value.
proof fn lemma_flag_with_value(flag: Seq<char>, value: Seq<char>)
    requires
        !flag.contains('='),
    ensures
        flag_parts(flag).1 is None,
        flag_parts(flag + seq!['='] + value) == (flag_parts(flag).0, Some(value)),
{
    lemma_undashed_before_value(flag, value);
    let name = undashed(flag);
    let s = name + seq!['='] + value;
    text::lemma_index_from(name, '=', 0);
    let none = text::index_from(name, '=', 0);
    assert(none == name.len()) by {
        if none < name.len() {
            assert(name.contains('='));
        }
    }
    text::lemma_index_from(s, '=', 0);
    let at = text::index_from(s, '=', 0);
    assert(s[name.len() as int] == '=');
    assert(at == name.len()) by {
        if at < name.len() {
            assert(s[at] == name[at]);
            assert(name.contains('='));
        }
    }
    assert(s.subrange(0, at) =~= name);
    assert(s.subrange(at + 1, s.len() as int) =~= value);
}

/// `--flag=value` and `--flag value` map alike, wherever the flag stands: an
/// invocation with the one comes to what the invocation with the other does. In
/// the place of a value that an earlier flag waits for, no token is a flag.
pub proof fn both_flag_forms_are_equivalent(
    c: Cap,
    front: Seq<Seq<char>>,
    flag: Seq<char>,
    value: Seq<char>,
    more: Seq<Seq<char>>,
    pairs: Seq<(String, String)>,
    reads: Seq<Option<Result<Vec<u8>, String>>>,
)
    requires
        is_flag(flag),
        !flag.contains('='),
        !awaits_value(front),
    ensures
        invocation(c, front + seq![flag + seq!['='] + value] + more, pairs, reads) == invocation(
            c,
            front + seq![flag, value] + more,
            pairs,
            reads,
        ),
{
    let none = Scan { arguments: Seq::empty(), positionals: Seq::empty() };
    let joined = flag + seq!['='] + value;
    let one = seq![joined] + more;
    let two = seq![flag, value] + more;
    assert(front + seq![joined] + more =~= front + one);
    assert(front + seq![flag, value] + more =~= front + two);
    lemma_scan_behind(c, front, one, none);
    lemma_scan_behind(c, front, two, none);
    lemma_flag_with_value(flag, value);
    assert(joined[0] == flag[0]);
    assert(one[0] == joined && two[0] == flag && two[1] == value);
    assert(one.skip(1) =~= more);
    assert(two.skip(2) =~= more);
}

/// No positional is bound twice: what a bare token binds, neither a flag nor an
/// explicit pair supplies. And no bare token is lost: each is bound, or left as
/// an input path, in the order given.
pub proof fn a_supplied_position_is_not_bound_again(
    args: Seq<CapArg>,
    tokens: Seq<Seq<char>>,
    arguments: Mapped,
    explicit: Mapped,
)
    ensures
        ({
            let filled = fill(args, tokens, arguments, explicit);
            let n = filled.arguments.len() - arguments.len();
            &&& 0 <= n <= tokens.len()
            &&& filled.arguments.take(arguments.len() as int) == arguments
            &&& filled.rest == tokens.skip(n)
            &&& forall|i: int|
                0 <= i < n ==> {
                    let bound = #[trigger] filled.arguments[arguments.len() + i];
                    &&& !supplied(arguments, bound.0)
                    &&& !supplied(explicit, bound.0)
                    &&& bound.1 == vstd::utf8::encode_utf8(tokens[i])
                }
        }),
    decreases args.len(),
{
    let filled = fill(args, tokens, arguments, explicit);
    assert(arguments.take(arguments.len() as int) =~= arguments);
    assert(tokens.skip(0) =~= tokens);
    if args.len() > 0 {
        let media = args[0].media_urn@;
        if supplied(arguments, media) || supplied(explicit, media) {
            a_supplied_position_is_not_bound_again(args.skip(1), tokens, arguments, explicit);
        } else if tokens.len() > 0 {
            let entry = (media, vstd::utf8::encode_utf8(tokens[0]));
            let longer = arguments.push(entry);
            a_supplied_position_is_not_bound_again(
                args.skip(1),
                tokens.skip(1),
                longer,
                explicit,
            );
            let n = filled.arguments.len() - arguments.len();
            assert(tokens.skip(1).skip(n - 1) =~= tokens.skip(n));
            assert forall|i: int| 0 <= i < arguments.len() implies filled.arguments[i]
                == arguments[i] by {
                assert(filled.arguments.take(longer.len() as int)[i] == longer[i]);
            }
            assert(filled.arguments.take(arguments.len() as int) =~= arguments);
            assert(filled.arguments.take(longer.len() as int)[arguments.len() as int] == entry);
            assert forall|i: int| 0 <= i < n implies ({
                let bound = #[trigger] filled.arguments[arguments.len() + i];
                &&& !supplied(arguments, bound.0)
                &&& !supplied(explicit, bound.0)
                &&& bound.1 == vstd::utf8::encode_utf8(tokens[i])
            }) by {
                if i > 0 {
                    let bound = filled.arguments[longer.len() + (i - 1)];
                    assert(!supplied(longer, bound.0));
                    assert forall|k: int| 0 <= k < arguments.len() implies (
                    #[trigger] arguments[k]).0 != bound.0 by {
                        assert(longer[k] == arguments[k]);
                    }
                    assert(tokens.skip(1)[i - 1] == tokens[i]);
                }
            }
        }
    }
}

/// A mapping that succeeds supplies every argument that must be: it appears, by
/// its media URN, among the mapped arguments, however it is declared to be
/// passed.
pub proof fn a_required_argument_is_supplied(
    c: Cap,
    tokens: Seq<Seq<char>>,
    pairs: Seq<(String, String)>,
    reads: Seq<Option<Result<Vec<u8>, String>>>,
    i: int,
)
    requires
        invocation(c, tokens, pairs, reads) is Ok,
        0 <= i < c.args@.len(),
        forall|k: int|
            0 <= k < c.args@[i].sources@.len() ==> !(#[trigger] c.args@[i].sources@[k] is Stdin),
        c.args@[i].required,
        c.args@[i].default_value is None,
    ensures
        exists|j: int|
            0 <= j < invocation(c, tokens, pairs, reads)->Ok_0.arguments.len() && (
            #[trigger] invocation(c, tokens, pairs, reads)->Ok_0.arguments[j]).0
                == c.args@[i].media_urn@,
{
    let args = non_stdin(c.args@);
    let mapped = invocation(c, tokens, pairs, reads)->Ok_0.arguments;
    lemma_none_missing(args, mapped);
    lemma_non_stdin_keeps(c.args@, i);
    let k = choose|k: int| 0 <= k < args.len() && args[k] == c.args@[i];
    assert(!is_missing(args[k], mapped));
}

proof fn lemma_streamless(arg: CapArg)
    ensures
        cap::stdin_fed(arg) <==> !(forall|k: int|
            0 <= k < arg.sources@.len() ==> !(#[trigger] arg.sources@[k] is Stdin)),
{
    cap::lemma_first_stdin_source(arg.sources@, 0);
    if cap::stdin_fed(arg) {
        assert(arg.sources@[cap::stdin_index(arg.sources@, 0)] is Stdin);
    }
}

/// The arguments that are passed as options are those without a stream source, in
/// declared order.
pub proof fn options_are_what_no_stream_feeds(args: Seq<CapArg>)
    ensures
        non_stdin(args) == args.filter(|a: CapArg| forall|k: int| 0 <= k < a.sources@.len() ==> !(#[trigger] a.sources@[k] is Stdin)),
    decreases args.len(),
{
    let keeps = |a: CapArg| forall|k: int| 0 <= k < a.sources@.len() ==> !(#[trigger] a.sources@[k] is Stdin);
    reveal(Seq::filter);
    if args.len() > 0 {
        let short = args.drop_last();
        options_are_what_no_stream_feeds(short);
        lemma_streamless(args.last());
        assert(non_stdin(args) =~= args.filter(keeps));
    } else {
        assert(non_stdin(args) =~= args.filter(keeps));
    }
}

/// An address finds all arguments that answer to it and no others, in declared
/// order.
pub proof fn an_address_finds_every_argument_that_answers(args: Seq<CapArg>, a: Address)
    ensures
        answering(args, a) == args.filter(|x: CapArg| answers(x, a)),
    decreases args.len(),
{
    let keeps = |x: CapArg| answers(x, a);
    reveal(Seq::filter);
    if args.len() > 0 {
        let short = args.drop_last();
        an_address_finds_every_argument_that_answers(short, a);
        assert(answering(args, a) =~= args.filter(keeps));
    } else {
        assert(answering(args, a) =~= args.filter(keeps));
    }
}

/// Stripping takes off all leading dashes and nothing else.
pub proof fn stripping_takes_all_leading_dashes(s: Seq<char>) -> (k: int)
    ensures
        0 <= k <= s.len(),
        undashed(s) == s.skip(k),
        forall|i: int| 0 <= i < k ==> #[trigger] s[i] == '-',
        k < s.len() ==> s[k] != '-',
    decreases s.len(),
{
    if s.len() > 0 && s[0] == '-' {
        let tail = s.subrange(1, s.len() as int);
        let k = stripping_takes_all_leading_dashes(tail);
        assert(tail.skip(k) =~= s.skip(k + 1));
        assert forall|i: int| 0 <= i < k + 1 implies #[trigger] s[i] == '-' by {
            if i > 0 {
                assert(s[i] == tail[i - 1]);
            }
        }
        k + 1
    } else {
        assert(s.skip(0) =~= s);
        0
    }
}

/// The flags of an argument are all it declares, without their leading dashes
/// and in declared order.
pub proof fn every_declared_flag_is_a_flag(sources: Seq<ArgSource>)
    ensures
        flags_of(sources) == sources.filter_map(
            |s: ArgSource|
                match s {
                    ArgSource::CliFlag { cli_flag } => Some(undashed(cli_flag@)),
                    _ => None,
                },
        ),
        forall|i: int|
            0 <= i < sources.len() && (#[trigger] sources[i]) is CliFlag ==> flags_of(
                sources,
            ).contains(undashed(sources[i]->cli_flag@)),
    decreases sources.len(),
{
    let flag = |s: ArgSource|
        match s {
            ArgSource::CliFlag { cli_flag } => Some(undashed(cli_flag@)),
            _ => None,
        };
    if sources.len() > 0 {
        let short = sources.drop_last();
        every_declared_flag_is_a_flag(short);
        assert(flags_of(sources) =~= sources.filter_map(flag));
        assert forall|i: int|
            0 <= i < sources.len() && (#[trigger] sources[i]) is CliFlag implies flags_of(
            sources,
        ).contains(undashed(sources[i]->cli_flag@)) by {
            if i < short.len() {
                assert(short[i] == sources[i]);
                let f = undashed(sources[i]->cli_flag@);
                let k = choose|k: int| 0 <= k < flags_of(short).len() && flags_of(short)[k] == f;
                assert(flags_of(sources)[k] == f);
            } else {
                assert(flags_of(sources).last() == undashed(sources[i]->cli_flag@));
            }
        }
    } else {
        assert(flags_of(sources) =~= sources.filter_map(flag));
    }
}

/// The position of an argument is the first that it declares; one that declares
/// none has none.
pub proof fn a_position_is_the_first_declared(sources: Seq<ArgSource>, from: int)
    requires
        0 <= from <= sources.len(),
    ensures
        match position_from(sources, from) {
            Some(p) => exists|i: int|
                #![trigger sources[i]]
                from <= i < sources.len() && sources[i] == (ArgSource::Position { position: p })
                    && (forall|j: int| from <= j < i ==> !((#[trigger] sources[j]) is Position)),
            None => forall|i: int|
                from <= i < sources.len() ==> !((#[trigger] sources[i]) is Position),
        },
    decreases sources.len() - from,
{
    if from < sources.len() && !(sources[from] is Position) {
        a_position_is_the_first_declared(sources, from + 1);
    }
}

proof fn lemma_placed_items(sorted: Seq<CapArg>, arg: CapArg)
    ensures
        placed(sorted, arg).to_multiset() == sorted.to_multiset().insert(arg),
    decreases sorted.len(),
{
    broadcast use vstd::seq_lib::group_to_multiset_ensures;

    if sorted.len() == 0 {
        assert(seq![arg] =~= sorted.push(arg));
    } else if place_of(sorted.last()) > place_of(arg) {
        let short = sorted.drop_last();
        lemma_placed_items(short, arg);
        assert(sorted =~= short.push(sorted.last()));
        assert(placed(sorted, arg).to_multiset() =~= sorted.to_multiset().insert(arg));
    }
}

/// Ordering by position neither loses nor repeats an argument: it holds those
/// with a position, each as often as it is declared.
pub proof fn ordering_keeps_every_positional(args: Seq<CapArg>)
    ensures
        by_position(args).to_multiset() == args.filter(
            |a: CapArg| position_of(a) is Some,
        ).to_multiset(),
    decreases args.len(),
{
    broadcast use vstd::seq_lib::group_to_multiset_ensures;

    let keeps = |a: CapArg| position_of(a) is Some;
    reveal(Seq::filter);
    if args.len() > 0 {
        ordering_keeps_every_positional(args.drop_last());
        if position_of(args.last()) is Some {
            lemma_placed_items(by_position(args.drop_last()), args.last());
        }
    } else {
        assert(by_position(args) =~= args.filter(keeps));
    }
}

/// A bare token goes to the first positional that nothing supplies yet: every
/// positional before the one it is bound to is supplied by a flag, an explicit
/// pair or an earlier bare token. Input paths are left over only once every
/// positional is supplied.
pub proof fn a_bare_token_fills_the_first_open_position(
    args: Seq<CapArg>,
    tokens: Seq<Seq<char>>,
    arguments: Mapped,
    explicit: Mapped,
    i: int,
)
    requires
        arguments.len() <= i < fill(args, tokens, arguments, explicit).arguments.len(),
    ensures
        ({
            let bound = fill(args, tokens, arguments, explicit).arguments;
            exists|k: int|
                #![trigger args[k]]
                0 <= k < args.len() && args[k].media_urn@ == bound[i].0 && (forall|x: int|
                    0 <= x < k ==> supplied(bound.take(i), (#[trigger] args[x]).media_urn@)
                        || supplied(explicit, args[x].media_urn@))
        }),
    decreases args.len(),
{
    let bound = fill(args, tokens, arguments, explicit).arguments;
    let tail = args.skip(1);
    a_supplied_position_is_not_bound_again(args, tokens, arguments, explicit);
    if args.len() > 0 {
        let media = args[0].media_urn@;
        let open = !(supplied(arguments, media) || supplied(explicit, media));
        if open && tokens.len() == 0 {
        } else {
            let next = if open {
                arguments.push((media, vstd::utf8::encode_utf8(tokens[0])))
            } else {
                arguments
            };
            let left = if open {
                tokens.skip(1)
            } else {
                tokens
            };
            assert(bound == fill(tail, left, next, explicit).arguments);
            a_supplied_position_is_not_bound_again(tail, left, next, explicit);
            if i < next.len() {
                assert(bound.take(next.len() as int)[i] == next[i]);
                assert(args[0].media_urn@ == bound[i].0);
            } else {
                a_bare_token_fills_the_first_open_position(tail, left, next, explicit, i);
                let k = choose|k: int|
                    #![trigger tail[k]]
                    0 <= k < tail.len() && tail[k].media_urn@ == bound[i].0 && (forall|x: int|
                        0 <= x < k ==> supplied(bound.take(i), (#[trigger] tail[x]).media_urn@)
                            || supplied(explicit, tail[x].media_urn@));
                assert(args[k + 1] == tail[k]);
                assert forall|x: int| 0 <= x < k + 1 implies supplied(
                    bound.take(i),
                    (#[trigger] args[x]).media_urn@,
                ) || supplied(explicit, args[x].media_urn@) by {
                    if x > 0 {
                        assert(tail[x - 1] == args[x]);
                    } else if !supplied(explicit, media) {
                        let y = if open {
                            arguments.len() as int
                        } else {
                            choose|y: int|
                                0 <= y < arguments.len() && (#[trigger] arguments[y]).0 == media
                        };
                        assert(next[y].0 == media);
                        assert(bound.take(next.len() as int)[y] == next[y]);
                        assert(bound.take(i)[y].0 == media);
                    }
                }
            }
        }
    }
}

/// A cap's positionals are all supplied before a bare token is an input path.
pub proof fn input_paths_are_left_over(
    args: Seq<CapArg>,
    tokens: Seq<Seq<char>>,
    arguments: Mapped,
    explicit: Mapped,
    k: int,
)
    requires
        fill(args, tokens, arguments, explicit).rest.len() > 0,
        0 <= k < args.len(),
    ensures
        supplied(fill(args, tokens, arguments, explicit).arguments, args[k].media_urn@)
            || supplied(explicit, args[k].media_urn@),
    decreases args.len(),
{
    let bound = fill(args, tokens, arguments, explicit).arguments;
    let tail = args.skip(1);
    let media = args[0].media_urn@;
    let open = !(supplied(arguments, media) || supplied(explicit, media));
    let next = if open {
        arguments.push((media, vstd::utf8::encode_utf8(tokens[0])))
    } else {
        arguments
    };
    let left = if open {
        tokens.skip(1)
    } else {
        tokens
    };
    assert(fill(args, tokens, arguments, explicit) == fill(tail, left, next, explicit));
    if k > 0 {
        assert(tail[k - 1] == args[k]);
        input_paths_are_left_over(tail, left, next, explicit, k - 1);
    } else if !supplied(explicit, media) {
        a_supplied_position_is_not_bound_again(tail, left, next, explicit);
        let y = if open {
            arguments.len() as int
        } else {
            choose|y: int| 0 <= y < arguments.len() && (#[trigger] arguments[y]).0 == media
        };
        assert(next[y].0 == media);
        assert(bound.take(next.len() as int)[y] == next[y]);
    }
}

/// Every explicit pair maps to one argument, in order: the bytes of the file
/// where the value names one by a leading `@`, else the value's UTF-8, under
/// the media URN of the argument that the name addresses.
pub proof fn every_pair_maps_to_its_argument(
    c: Cap,
    pairs: Seq<(String, String)>,
    reads: Seq<Option<Result<Vec<u8>, String>>>,
    arguments: Mapped,
    i: int,
)
    requires
        pairs.len() == reads.len(),
        map_explicit(c, pairs, reads, arguments) is Ok,
        0 <= i < pairs.len(),
    ensures
        ({
            let m = map_explicit(c, pairs, reads, arguments)->Ok_0;
            let value = pairs[i].1@;
            &&& m.len() == arguments.len() + pairs.len()
            &&& m.take(arguments.len() as int) == arguments
            &&& explicit_target(c, pairs[i].0@) == Ok::<Seq<char>, Seq<char>>(
                m[arguments.len() + i].0,
            )
            &&& if value.len() > 0 && value[0] == '@' {
                reads[i]->0 is Ok && m[arguments.len() + i].1 == reads[i]->0->Ok_0@
            } else {
                m[arguments.len() + i].1 == vstd::utf8::encode_utf8(value)
            }
        }),
    decreases pairs.len(),
{
    let m = map_explicit(c, pairs, reads, arguments)->Ok_0;
    let media = explicit_target(c, pairs[0].0@)->Ok_0;
    let bytes = explicit_bytes(pairs[0].0@, pairs[0].1@, reads[0])->Ok_0;
    let next = arguments.push((media, bytes));
    lemma_explicit_grows(c, pairs.skip(1), reads.skip(1), next);
    assert(m.take(next.len() as int)[arguments.len() as int] == (media, bytes));
    assert(m.take(arguments.len() as int) =~= arguments) by {
        assert forall|x: int| 0 <= x < arguments.len() implies m[x] == arguments[x] by {
            assert(m.take(next.len() as int)[x] == next[x]);
        }
    }
    if i > 0 {
        every_pair_maps_to_its_argument(c, pairs.skip(1), reads.skip(1), next, i - 1);
        assert(pairs.skip(1)[i - 1] == pairs[i]);
        assert(reads.skip(1)[i - 1] == reads[i]);
    }
}

proof fn lemma_explicit_grows(
    c: Cap,
    pairs: Seq<(String, String)>,
    reads: Seq<Option<Result<Vec<u8>, String>>>,
    arguments: Mapped,
)
    requires
        map_explicit(c, pairs, reads, arguments) is Ok,
    ensures
        map_explicit(c, pairs, reads, arguments)->Ok_0.len() == arguments.len() + pairs.len(),
        map_explicit(c, pairs, reads, arguments)->Ok_0.take(arguments.len() as int) == arguments,
    decreases pairs.len(),
{
    let m = map_explicit(c, pairs, reads, arguments)->Ok_0;
    if pairs.len() > 0 {
        let media = explicit_target(c, pairs[0].0@)->Ok_0;
        let bytes = explicit_bytes(pairs[0].0@, pairs[0].1@, reads[0])->Ok_0;
        let next = arguments.push((media, bytes));
        lemma_explicit_grows(c, pairs.skip(1), reads.skip(1), next);
        assert(m.take(arguments.len() as int) =~= arguments) by {
            assert forall|x: int| 0 <= x < arguments.len() implies m[x] == arguments[x] by {
                assert(m.take(next.len() as int)[x] == next[x]);
            }
        }
    } else {
        assert(m.take(arguments.len() as int) =~= arguments);
    }
}

/// A flag supplies the one option of the cap that declares it; a flag that no
/// option declares, or that several do, is refused.
pub proof fn a_flag_supplies_the_one_option_that_declares_it(c: Cap, wanted: Seq<char>)
    ensures
        ({
            let found = c.args@.filter(
                |a: CapArg|
                    (forall|k: int|
                        0 <= k < a.sources@.len() ==> !(#[trigger] a.sources@[k] is Stdin))
                        && flags_of(a.sources@).contains(wanted),
            );
            &&& flag_target(c, wanted) is Ok <==> found.len() == 1
            &&& found.len() == 1 ==> flag_target(c, wanted)->Ok_0 == found[0].media_urn@
        }),
{
    lemma_answering_options(c.args@, Address::Flag(wanted));
    let both = |a: CapArg|
        (forall|k: int| 0 <= k < a.sources@.len() ==> !(#[trigger] a.sources@[k] is Stdin))
            && answers(a, Address::Flag(wanted));
    let direct = |a: CapArg|
        (forall|k: int| 0 <= k < a.sources@.len() ==> !(#[trigger] a.sources@[k] is Stdin))
            && flags_of(a.sources@).contains(wanted);
    assert(both =~= direct);
}

/// A media URN addresses the one option of the cap that it denotes, compared by
/// tags; one that denotes none or several is refused.
pub proof fn a_media_urn_addresses_the_one_option_it_denotes(c: Cap, name: Seq<char>)
    ensures
        ({
            let found = c.args@.filter(
                |a: CapArg|
                    (forall|k: int|
                        0 <= k < a.sources@.len() ==> !(#[trigger] a.sources@[k] is Stdin))
                        && urn::media_parsed(a.media_urn@) == urn::media_parsed(name),
            );
            &&& media_target(c, name) is Ok <==> urn::media_parsed(name) is Ok && found.len() == 1
            &&& media_target(c, name) is Ok ==> media_target(c, name)->Ok_0 == found[0].media_urn@
        }),
{
    if urn::media_parsed(name) is Ok {
        let tags = urn::media_parsed(name)->Ok_0;
        lemma_answering_options(c.args@, Address::Media(tags));
        let both = |a: CapArg|
            (forall|k: int| 0 <= k < a.sources@.len() ==> !(#[trigger] a.sources@[k] is Stdin))
                && answers(a, Address::Media(tags));
        let direct = |a: CapArg|
            (forall|k: int| 0 <= k < a.sources@.len() ==> !(#[trigger] a.sources@[k] is Stdin))
                && urn::media_parsed(a.media_urn@) == urn::media_parsed(name);
        assert(both =~= direct);
    }
}

proof fn lemma_answering_options(args: Seq<CapArg>, a: Address)
    ensures
        answering(non_stdin(args), a) == args.filter(
            |x: CapArg|
                (forall|k: int| 0 <= k < x.sources@.len() ==> !(#[trigger] x.sources@[k] is Stdin))
                    && answers(x, a),
        ),
    decreases args.len(),
{
    let keeps = |x: CapArg|
        (forall|k: int| 0 <= k < x.sources@.len() ==> !(#[trigger] x.sources@[k] is Stdin))
            && answers(x, a);
    reveal(Seq::filter);
    if args.len() > 0 {
        let short = args.drop_last();
        lemma_answering_options(short, a);
        lemma_streamless(args.last());
        if !cap::stdin_fed(args.last()) {
            assert(non_stdin(args).drop_last() =~= non_stdin(short));
        }
        assert(answering(non_stdin(args), a) =~= args.filter(keeps));
    } else {
        assert(answering(non_stdin(args), a) =~= args.filter(keeps));
    }
}

/// Bare tokens alone are all positionals, in the order given.
pub proof fn bare_tokens_stay_in_order(c: Cap, tokens: Seq<Seq<char>>, st: Scan)
    requires
        forall|i: int|
            0 <= i < tokens.len() ==> (#[trigger] tokens[i]).len() == 0 || tokens[i][0] != '-',
    ensures
        scan(c, tokens, st) == Ok::<Scan, Seq<char>>(
            Scan { arguments: st.arguments, positionals: st.positionals + tokens },
        ),
    decreases tokens.len(),
{
    if tokens.len() > 0 {
        let next = Scan { positionals: st.positionals.push(tokens[0]), ..st };
        assert forall|i: int| 0 <= i < tokens.skip(1).len() implies (#[trigger] tokens.skip(
            1,
        )[i]).len() == 0 || tokens.skip(1)[i][0] != '-' by {
            assert(tokens.skip(1)[i] == tokens[i + 1]);
        }
        bare_tokens_stay_in_order(c, tokens.skip(1), next);
        assert(next.positionals + tokens.skip(1) =~= st.positionals + tokens);
    } else {
        assert(st.positionals + tokens =~= st.positionals);
    }
}

/// A flag and the value behind it are mapped to the flag's argument, behind what
/// came before, and take no bare token away.
pub proof fn a_flag_takes_its_value(
    c: Cap,
    front: Seq<Seq<char>>,
    flag: Seq<char>,
    value: Seq<char>,
    st: Scan,
)
    requires
        flag.len() > 0,
        flag[0] == '-',
        !flag.contains('='),
        !awaits_value(front),
        scan(c, front, st) is Ok,
        flag_target(c, undashed(flag)) is Ok,
    ensures
        scan(c, front + seq![flag, value], st) == Ok::<Scan, Seq<char>>(
            Scan {
                arguments: scan(c, front, st)->Ok_0.arguments.push(
                    (flag_target(c, undashed(flag))->Ok_0, vstd::utf8::encode_utf8(value)),
                ),
                positionals: scan(c, front, st)->Ok_0.positionals,
            },
        ),
{
    let two = seq![flag, value];
    reveal_with_fuel(scan, 2);
    lemma_scan_behind(c, front, two, st);
    assert(two[0] == flag && two[1] == value);
    assert(is_flag(two[0]));
    lemma_flag_with_value(flag, value);
    stripping_takes_all_leading_dashes(flag);
    let name = undashed(flag);
    text::lemma_index_from(name, '=', 0);
    lemma_undashed_before_value(flag, value);
    assert(two.skip(2) =~= Seq::<Seq<char>>::empty());
    assert(flag_parts(flag).0 == name) by {
        let at = text::index_from(name, '=', 0);
        if at < name.len() {
            assert(name.contains('='));
        }
    }
}

/// What is missing is reported line by line: those options that are required,
/// have no default and are not among the mapped arguments, in declared order.
pub proof fn every_missing_option_is_reported(args: Seq<CapArg>, arguments: Mapped)
    ensures
        missing_lines(args, arguments) == args.filter_map(
            |a: CapArg|
                if a.required && a.default_value is None && !(exists|i: int|
                    0 <= i < arguments.len() && (#[trigger] arguments[i]).0 == a.media_urn@) {
                    Some(option_line(a))
                } else {
                    None
                },
        ),
    decreases args.len(),
{
    let line = |a: CapArg|
        if a.required && a.default_value is None && !(exists|i: int|
            0 <= i < arguments.len() && (#[trigger] arguments[i]).0 == a.media_urn@) {
            Some(option_line(a))
        } else {
            None
        };
    if args.len() > 0 {
        every_missing_option_is_reported(args.drop_last(), arguments);
        assert(missing_lines(args, arguments) =~= args.filter_map(line));
    } else {
        assert(missing_lines(args, arguments) =~= args.filter_map(line));
    }
}

/// A section of the interface lists every argument of its role on a line of its
/// own, in declared order.
pub proof fn a_section_lists_its_arguments(
    args: Seq<CapArg>,
    in_spec: urn::TagMap,
    role: ArgRole,
)
    ensures
        role_lines(args, in_spec, role) == args.filter_map(
            |a: CapArg|
                if role_of(a, in_spec) == role {
                    Some(
                        (if role == ArgRole::MainInput {
                            input_line(a)
                        } else {
                            option_line(a)
                        }) + "\n"@,
                    )
                } else {
                    None
                },
        ).flatten(),
    decreases args.len(),
{
    let line = |a: CapArg|
        if role_of(a, in_spec) == role {
            Some(
                (if role == ArgRole::MainInput {
                    input_line(a)
                } else {
                    option_line(a)
                }) + "\n"@,
            )
        } else {
            None
        };
    let lines = args.filter_map(line);
    lines.lemma_flatten_and_flatten_alt_are_equivalent();
    if args.len() > 0 {
        let before = args.drop_last().filter_map(line);
        a_section_lists_its_arguments(args.drop_last(), in_spec, role);
        before.lemma_flatten_and_flatten_alt_are_equivalent();
        if role_of(args.last(), in_spec) == role {
            assert(lines.drop_last() =~= before);
            assert(role_lines(args, in_spec, role) =~= before.flatten() + lines.last());
        }
    }
}

/// The flags that an error names are those of every option, each with two
/// dashes, option by option.
pub proof fn every_flag_is_known(args: Seq<CapArg>)
    ensures
        all_flags(args) == Seq::new(
            args.len(),
            |i: int|
                Seq::new(flags_of(args[i].sources@).len(), |j: int|
                    "--"@ + flags_of(args[i].sources@)[j]),
        ).flatten(),
    decreases args.len(),
{
    let each = Seq::new(
        args.len(),
        |i: int|
            Seq::new(flags_of(args[i].sources@).len(), |j: int|
                "--"@ + flags_of(args[i].sources@)[j]),
    );
    each.lemma_flatten_and_flatten_alt_are_equivalent();
    if args.len() > 0 {
        let short = args.drop_last();
        every_flag_is_known(short);
        let before = Seq::new(
            short.len(),
            |i: int|
                Seq::new(flags_of(short[i].sources@).len(), |j: int|
                    "--"@ + flags_of(short[i].sources@)[j]),
        );
        before.lemma_flatten_and_flatten_alt_are_equivalent();
        assert(each.drop_last() =~= before) by {
            assert forall|i: int| 0 <= i < before.len() implies each.drop_last()[i] == before[i] by {
                assert(short[i] == args[i]);
            }
        }
        assert(each.last() =~= dashed(flags_of(args.last().sources@)));
    }
}

/// A cap is driven from one stream exactly if one of its arguments has a stream
/// source.
pub proof fn streams_are_counted(args: Seq<CapArg>)
    ensures
        stdin_count(args) + non_stdin(args).len() == args.len(),
    decreases args.len(),
{
    if args.len() > 0 {
        streams_are_counted(args.drop_last());
    }
}

/// An invocation loses nothing: its arguments are those of the flags, then of the
/// bare tokens that fill positions, then of the explicit pairs, and the bare
/// tokens that fill none are its input paths, in the order given.
pub proof fn an_invocation_loses_nothing(
    c: Cap,
    tokens: Seq<Seq<char>>,
    pairs: Seq<(String, String)>,
    reads: Seq<Option<Result<Vec<u8>, String>>>,
)
    requires
        invocation(c, tokens, pairs, reads) is Ok,
    ensures
        ({
            let none = Scan { arguments: Seq::empty(), positionals: Seq::empty() };
            let scanned = scan(c, tokens, none);
            let explicit = map_explicit(c, pairs, reads, Seq::empty());
            let r = invocation(c, tokens, pairs, reads)->Ok_0;
            let bound = r.arguments.len() - scanned->Ok_0.arguments.len() - explicit->Ok_0.len();
            &&& scanned is Ok
            &&& explicit is Ok
            &&& explicit->Ok_0.len() == pairs.len()
            &&& 0 <= bound <= scanned->Ok_0.positionals.len()
            &&& r.arguments.take(scanned->Ok_0.arguments.len() as int)
                == scanned->Ok_0.arguments
            &&& r.arguments.skip(scanned->Ok_0.arguments.len() + bound) == explicit->Ok_0
            &&& r.rest == scanned->Ok_0.positionals.skip(bound)
        }),
{
    let none = Scan { arguments: Seq::empty(), positionals: Seq::empty() };
    let st = scan(c, tokens, none)->Ok_0;
    let explicit = map_explicit(c, pairs, reads, Seq::empty())->Ok_0;
    lemma_explicit_grows(c, pairs, reads, Seq::empty());
    let slots = by_position(non_stdin(c.args@));
    let filled = fill(slots, st.positionals, st.arguments, explicit);
    a_supplied_position_is_not_bound_again(slots, st.positionals, st.arguments, explicit);
    let r = invocation(c, tokens, pairs, reads)->Ok_0;
    assert(r.arguments == filled.arguments + explicit);
    assert(r.arguments.take(st.arguments.len() as int) =~= filled.arguments.take(
        st.arguments.len() as int,
    ));
    assert(r.arguments.skip(filled.arguments.len() as int) =~= explicit);
}

/// A value is a file's bytes exactly where it names one by a leading `@`; the
/// path is what stands behind it.
pub proof fn a_leading_at_names_a_file(value: Seq<char>, path: Seq<char>)
    ensures
        named_file(seq!['@'] + path) == Some(path),
        named_file(value) is Some ==> value == seq!['@'] + named_file(value)->0,
        named_file(value) is None <==> value.len() == 0 || value[0] != '@',
{
    let whole = seq!['@'] + path;
    assert(whole.subrange(1, whole.len() as int) =~= path);
    if named_file(value) is Some {
        assert(value =~= seq!['@'] + value.subrange(1, value.len() as int));
    }
}

/// A line of an option says how it is passed, under which media URN, whether it
/// takes a sequence, and what happens where it is left out.
pub proof fn an_option_line_says_how_to_pass_it(arg: CapArg)
    ensures
        text::part_of(arg.media_urn@, option_line(arg)),
        text::part_of(invocation_form(arg), option_line(arg)),
        arg.is_sequence ==> text::part_of(" [sequence]"@, option_line(arg)),
        arg.default_value is Some ==> text::part_of(
            " [default: "@ + arg.default_value->0@ + "]"@,
            option_line(arg),
        ),
        arg.default_value is None && !arg.required ==> text::part_of(
            " [optional]"@,
            option_line(arg),
        ),
        arg.arg_description is Some ==> text::part_of(
            text::trimmed(arg.arg_description->0@),
            option_line(arg),
        ),
{
    let form = invocation_form(arg);
    let urn = arg.media_urn@;
    let base = "  "@ + form + "  ("@ + urn + ")"@;
    let described = with_description(base, arg);
    let line = with_cardinality(described, arg);
    let whole = option_line(arg);
    text::lemma_part_between("  "@ + form + "  ("@, urn, ")"@);
    text::lemma_part_between("  "@, form, "  ("@);
    text::lemma_part_stays(form, "  "@ + form + "  ("@, urn);
    text::lemma_part_stays(form, "  "@ + form + "  ("@ + urn, ")"@);
    lemma_line_grows(urn, base, arg);
    lemma_line_grows(form, base, arg);
    if let Some(d) = arg.arg_description {
        let t = text::trimmed(d@);
        if t.len() > 0 {
            text::lemma_part_between(base + " — "@, t, Seq::empty());
        } else {
            text::lemma_part_between(Seq::empty(), t, described);
            assert(t + described =~= described);
        }
        lemma_rest_grows(t, described, arg);
    }
    if arg.is_sequence {
        text::lemma_part_between(described, " [sequence]"@, Seq::empty());
        lemma_tail_grows(" [sequence]"@, line, arg);
    }
    if let Some(d) = arg.default_value {
        let tail = " [default: "@ + d@ + "]"@;
        assert(whole =~= line + tail);
        text::lemma_part_between(line, tail, Seq::empty());
    } else if !arg.required {
        text::lemma_part_between(line, " [optional]"@, Seq::empty());
    }
}

proof fn lemma_line_grows(x: Seq<char>, base: Seq<char>, arg: CapArg)
    requires
        text::part_of(x, base),
        base == "  "@ + invocation_form(arg) + "  ("@ + arg.media_urn@ + ")"@,
    ensures
        text::part_of(x, option_line(arg)),
{
    if let Some(d) = arg.arg_description {
        text::lemma_part_stays(x, base, " — "@);
        text::lemma_part_stays(x, base + " — "@, text::trimmed(d@));
    }
    lemma_rest_grows(x, with_description(base, arg), arg);
}

proof fn lemma_rest_grows(x: Seq<char>, described: Seq<char>, arg: CapArg)
    requires
        text::part_of(x, described),
        described == with_description(
            "  "@ + invocation_form(arg) + "  ("@ + arg.media_urn@ + ")"@,
            arg,
        ),
    ensures
        text::part_of(x, option_line(arg)),
{
    text::lemma_part_stays(x, described, " [sequence]"@);
    lemma_tail_grows(x, with_cardinality(described, arg), arg);
}

proof fn lemma_tail_grows(x: Seq<char>, line: Seq<char>, arg: CapArg)
    requires
        text::part_of(x, line),
        line == with_cardinality(
            with_description(
                "  "@ + invocation_form(arg) + "  ("@ + arg.media_urn@ + ")"@,
                arg,
            ),
            arg,
        ),
    ensures
        text::part_of(x, option_line(arg)),
{
    text::lemma_part_stays(x, line, " [optional]"@);
    if let Some(d) = arg.default_value {
        text::lemma_part_stays(x, line, " [default: "@);
        text::lemma_part_stays(x, line + " [default: "@, d@);
        text::lemma_part_stays(x, line + " [default: "@ + d@, "]"@);
    }
}

proof fn lemma_one_more_line(before: Seq<char>, line: Seq<char>)
    ensures
        text::part_of(line + "\n"@, before + line + "\n"@),
        forall|x: Seq<char>| #[trigger]
            text::part_of(x, before) ==> text::part_of(x, before + line + "\n"@),
{
    assert(before + line + "\n"@ =~= before + (line + "\n"@));
    text::lemma_part_between(before, line + "\n"@, Seq::empty());
    assert forall|x: Seq<char>| #[trigger] text::part_of(x, before) implies text::part_of(
        x,
        before + line + "\n"@,
    ) by {
        text::lemma_part_stays(x, before, line + "\n"@);
    }
}

/// The line on which an argument of a role stands.
spec fn line_of(arg: CapArg, role: ArgRole) -> Seq<char> {
    if role == ArgRole::MainInput {
        input_line(arg)
    } else {
        option_line(arg)
    }
}

proof fn lemma_last_line(args: Seq<CapArg>, in_spec: urn::TagMap, role: ArgRole)
    requires
        args.len() > 0,
    ensures
        role_lines(args, in_spec, role) == (if role_of(args.last(), in_spec) == role {
            role_lines(args.drop_last(), in_spec, role) + line_of(args.last(), role) + "\n"@
        } else {
            role_lines(args.drop_last(), in_spec, role)
        }),
{
}

#[verifier::opaque]
spec fn line_listed(
    args: Seq<CapArg>,
    in_spec: urn::TagMap,
    role: ArgRole,
    arg: CapArg,
) -> bool {
    text::part_of(line_of(arg, role) + "\n"@, role_lines(args, in_spec, role))
}

proof fn lemma_line_stays(args: Seq<CapArg>, in_spec: urn::TagMap, role: ArgRole, arg: CapArg)
    requires
        args.len() > 0,
        line_listed(args.drop_last(), in_spec, role, arg) || (args.last() == arg && role_of(
            arg,
            in_spec,
        ) == role),
    ensures
        line_listed(args, in_spec, role, arg),
{
    reveal(line_listed);
    lemma_last_line(args, in_spec, role);
    lemma_one_more_line(
        role_lines(args.drop_last(), in_spec, role),
        line_of(args.last(), role),
    );
}

proof fn lemma_role_lists(args: Seq<CapArg>, in_spec: urn::TagMap, role: ArgRole, i: int)
    requires
        0 <= i < args.len(),
        role_of(args[i], in_spec) == role,
    ensures
        line_listed(args, in_spec, role, args[i]),
    decreases args.len(),
{
    let short = args.drop_last();
    if i < short.len() {
        assert(short[i] == args[i]);
        lemma_role_lists(short, in_spec, role, i);
    }
    lemma_line_stays(args, in_spec, role, args[i]);
}

/// Every argument of a cap stands in its interface on a line of its own: the main
/// input as an input, any other as an option. The cap's URN and its output's
/// stand there too.
pub proof fn the_interface_lists_every_argument(c: Cap, in_spec: urn::TagMap, i: int)
    requires
        0 <= i < c.args@.len(),
    ensures
        ({
            let arg = c.args@[i];
            let main = exists|k: int|
                0 <= k < arg.sources@.len() && (#[trigger] arg.sources@[k]) is Stdin
                    && urn::media_parsed(arg.sources@[k]->stdin@) == Ok::<
                    urn::TagMap,
                    urn::UrnFault,
                >(in_spec);
            &&& main ==> text::part_of(input_line(arg) + "\n"@, interface_text(c, in_spec))
            &&& !main ==> text::part_of(option_line(arg) + "\n"@, interface_text(c, in_spec))
        }),
        text::part_of(c.urn.text@, interface_text(c, in_spec)),
        c.output is Some ==> text::part_of(c.output->0.media_urn@, interface_text(c, in_spec)),
{
    let arg = c.args@[i];
    let role = role_of(arg, in_spec);
    lemma_role_lists(c.args@, in_spec, role, i);
    reveal(line_listed);
    lemma_interface_parts(c, in_spec, role);
    let line = (if role == ArgRole::MainInput {
        input_line(arg)
    } else {
        option_line(arg)
    }) + "\n"@;
    assert(has_role(c.args@, in_spec, role));
    text::lemma_part_of_part(line, role_lines(c.args@, in_spec, role), interface_text(c, in_spec));
    if cap::main_input(arg, in_spec) {
        let k = choose|k: int|
            0 <= k < arg.sources@.len() && #[trigger] cap::feeds_main(arg.sources@[k], in_spec);
        assert(arg.sources@[k] is Stdin);
    } else if exists|k: int|
        0 <= k < arg.sources@.len() && (#[trigger] arg.sources@[k]) is Stdin && urn::media_parsed(
            arg.sources@[k]->stdin@,
        ) == Ok::<urn::TagMap, urn::UrnFault>(in_spec) {
        let k = choose|k: int|
            0 <= k < arg.sources@.len() && (#[trigger] arg.sources@[k]) is Stdin
                && urn::media_parsed(arg.sources@[k]->stdin@) == Ok::<urn::TagMap, urn::UrnFault>(
                in_spec,
            );
        assert(cap::feeds_main(arg.sources@[k], in_spec));
    }
}

proof fn lemma_interface_parts(c: Cap, in_spec: urn::TagMap, role: ArgRole)
    requires
        has_role(c.args@, in_spec, role),
    ensures
        text::part_of(role_lines(c.args@, in_spec, role), interface_text(c, in_spec)),
        text::part_of(c.urn.text@, interface_text(c, in_spec)),
        c.output is Some ==> text::part_of(c.output->0.media_urn@, interface_text(c, in_spec)),
{
    let name = c.urn.text@;
    let urn_line = name + "\n"@;
    let title = if c.title@.len() > 0 {
        urn_line + c.title@ + "\n"@
    } else {
        urn_line
    };
    let names = text::join_text(text::views(c.aliases@), ", "@);
    let aliases = if c.aliases@.len() > 0 {
        title + "Aliases: "@ + names + "\n"@
    } else {
        title
    };
    let inputs = role_lines(c.args@, in_spec, ArgRole::MainInput);
    let needed = role_lines(c.args@, in_spec, ArgRole::Required);
    let other = role_lines(c.args@, in_spec, ArgRole::Optional);
    let input_head = aliases + "\nInput (piped stdin, or input file path(s)):\n"@;
    let input = input_head + inputs;
    let required_head = input + "\nRequired options (must be supplied):\n"@;
    let required = if has_role(c.args@, in_spec, ArgRole::Required) {
        required_head + needed
    } else {
        input
    };
    let options_head = required + "\nOptions:\n"@;
    let options = if has_role(c.args@, in_spec, ArgRole::Optional) {
        options_head + other
    } else {
        required
    };
    let whole = interface_text(c, in_spec);
    // The URN stands at the front.
    text::lemma_part_between(Seq::empty(), name, "\n"@);
    text::lemma_part_stays(name, urn_line, c.title@);
    text::lemma_part_stays(name, urn_line + c.title@, "\n"@);
    text::lemma_part_stays(name, title, "Aliases: "@);
    text::lemma_part_stays(name, title + "Aliases: "@, names);
    text::lemma_part_stays(name, title + "Aliases: "@ + names, "\n"@);
    text::lemma_part_stays(name, aliases, "\nInput (piped stdin, or input file path(s)):\n"@);
    text::lemma_part_stays(name, input_head, inputs);
    // Each section stands behind the ones before it.
    text::lemma_part_between(input_head, inputs, Seq::empty());
    lemma_required_grows(name, input, needed, required);
    lemma_required_grows(inputs, input, needed, required);
    text::lemma_part_between(required_head, needed, Seq::empty());
    lemma_options_grow(name, required, other, options);
    lemma_options_grow(inputs, required, other, options);
    if has_role(c.args@, in_spec, ArgRole::Required) {
        lemma_options_grow(needed, required, other, options);
    }
    text::lemma_part_between(options_head, other, Seq::empty());
    lemma_output_grows(name, options, c, whole);
    lemma_output_grows(role_lines(c.args@, in_spec, role), options, c, whole);
    if let Some(o) = c.output {
        let head = options + "\nOutput: "@;
        let kind = if o.is_sequence {
            " [sequence]"@
        } else {
            Seq::<char>::empty()
        };
        text::lemma_part_between(head, o.media_urn@, Seq::empty());
        text::lemma_part_stays(o.media_urn@, head + o.media_urn@, kind);
        text::lemma_part_stays(o.media_urn@, head + o.media_urn@ + kind, "\n"@);
    }
}

proof fn lemma_required_grows(
    x: Seq<char>,
    input: Seq<char>,
    needed: Seq<char>,
    required: Seq<char>,
)
    requires
        text::part_of(x, input),
        required == input || required == input + "\nRequired options (must be supplied):\n"@
            + needed,
    ensures
        text::part_of(x, required),
{
    text::lemma_part_stays(x, input, "\nRequired options (must be supplied):\n"@);
    text::lemma_part_stays(x, input + "\nRequired options (must be supplied):\n"@, needed);
}

proof fn lemma_options_grow(x: Seq<char>, required: Seq<char>, other: Seq<char>, options: Seq<char>)
    requires
        text::part_of(x, required),
        options == required || options == required + "\nOptions:\n"@ + other,
    ensures
        text::part_of(x, options),
{
    text::lemma_part_stays(x, required, "\nOptions:\n"@);
    text::lemma_part_stays(x, required + "\nOptions:\n"@, other);
}

proof fn lemma_output_grows(x: Seq<char>, options: Seq<char>, c: Cap, whole: Seq<char>)
    requires
        text::part_of(x, options),
        whole == match c.output {
            Some(o) => options + "\nOutput: "@ + o.media_urn@ + (if o.is_sequence {
                " [sequence]"@
            } else {
                Seq::empty()
            }) + "\n"@,
            None => options,
        },
    ensures
        text::part_of(x, whole),
{
    if let Some(o) = c.output {
        let head = options + "\nOutput: "@;
        let kind = if o.is_sequence {
            " [sequence]"@
        } else {
            Seq::<char>::empty()
        };
        text::lemma_part_stays(x, options, "\nOutput: "@);
        text::lemma_part_stays(x, head, o.media_urn@);
        text::lemma_part_stays(x, head + o.media_urn@, kind);
        text::lemma_part_stays(x, head + o.media_urn@ + kind, "\n"@);
    }
}

} // verus!
