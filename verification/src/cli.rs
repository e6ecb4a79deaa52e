//! The command-line front end: argument parsing and device lookup.

use vstd::prelude::*;
use vstd::string::*;

use crate::platform::list_outputs;
use crate::text::{
    contains_text, debug_quoted, debug_text, decimal_i32, lowercase, opt_text, parse_i32,
    text_contains, texts, to_lowercase,
};
use crate::types::{DeviceInfo, Error};

verus! {

/// The help text of the command-line front end.
pub const USAGE: &'static str = "\
fan-cli \u{2014} headless harness for the fan-core engine

usage:
  fan-cli list
  fan-cli run --to <name-or-id> [--offset-ms <n>] [--to ...] [--source <name-or-id>]

  --to          output device, repeatable
  --offset-ms   delay for the --to it follows, -200..=200
  --source      capture source, defaults to the Windows default render endpoint

Devices match on exact id first, then case-insensitive substring of the name.
";

/// Flags as typed, before device names are resolved to endpoint ids.
#[derive(Debug, PartialEq, Eq)]
pub struct Spec {
    pub outputs: Vec<(String, i32)>,
    pub source: Option<String>,
}

impl Default for Spec {
    /// No outputs and the default source.
    fn default() -> (s: Self)
        ensures
            s.outputs@.len() == 0,
            s.source is None,
    {
        Spec { outputs: Vec::new(), source: None }
    }
}

/// The outputs of a `Spec` as plain text and offsets.
pub open spec fn outputs_view(outputs: Seq<(String, i32)>) -> Seq<(Seq<char>, i32)> {
    outputs.map_values(|o: (String, i32)| (o.0@, o.1))
}

pub open spec fn needs_value_message(flag: Seq<char>) -> Seq<char> {
    flag + " needs a value"@
}

pub open spec fn not_integer_message(value: Seq<char>) -> Seq<char> {
    "--offset-ms wants an integer, got "@ + debug_text(value)
}

/// The smallest and largest offset a `--offset-ms` may give, in milliseconds.
pub const MIN_OFFSET_MS: i32 = -200;
pub const MAX_OFFSET_MS: i32 = 200;

pub open spec fn out_of_range_message(value: Seq<char>) -> Seq<char> {
    "--offset-ms must lie in -200..=200, got "@ + debug_text(value)
}

pub open spec fn must_follow_message() -> Seq<char> {
    "--offset-ms must follow a --to"@
}

pub open spec fn unknown_flag_message(flag: Seq<char>) -> Seq<char> {
    "unknown flag "@ + debug_text(flag) + "\n\n"@ + USAGE@
}

pub open spec fn needs_output_message() -> Seq<char> {
    "run needs at least one --to\n\n"@ + USAGE@
}

/// Parsing `args` from position `i` on, with `outputs` and `source` gathered
/// so far: flags come in pairs of a name and a value; `--to` adds an output
/// with no offset, `--offset-ms` sets the offset of the latest output to an
/// integer within -200..=200,
/// `--source` sets the capture source, and at least one output is needed.
pub open spec fn parse_from(
    args: Seq<Seq<char>>,
    i: int,
    outputs: Seq<(Seq<char>, i32)>,
    source: Option<Seq<char>>,
) -> std::result::Result<(Seq<(Seq<char>, i32)>, Option<Seq<char>>), Seq<char>>
    decreases args.len() - i,
{
    if i < 0 || i >= args.len() {
        if outputs.len() == 0 {
            Err(needs_output_message())
        } else {
            Ok((outputs, source))
        }
    } else if i + 1 >= args.len() {
        Err(needs_value_message(args[i]))
    } else {
        let flag = args[i];
        let value = args[i + 1];
        if flag == "--to"@ {
            parse_from(args, i + 2, outputs.push((value, 0i32)), source)
        } else if flag == "--offset-ms"@ {
            match decimal_i32(value) {
                None => Err(not_integer_message(value)),
                Some(ms) => if ms < MIN_OFFSET_MS || ms > MAX_OFFSET_MS {
                    Err(out_of_range_message(value))
                } else if outputs.len() == 0 {
                    Err(must_follow_message())
                } else {
                    parse_from(
                        args,
                        i + 2,
                        outputs.update(outputs.len() - 1, (outputs.last().0, ms)),
                        source,
                    )
                },
            }
        } else if flag == "--source"@ {
            parse_from(args, i + 2, outputs, Some(value))
        } else {
            Err(unknown_flag_message(flag))
        }
    }
}

/// What parsing the arguments of `run` gives.
pub open spec fn parse_spec(args: Seq<Seq<char>>) -> std::result::Result<
    (Seq<(Seq<char>, i32)>, Option<Seq<char>>),
    Seq<char>,
> {
    parse_from(args, 0, Seq::empty(), None)
}

proof fn lemma_parse_from_has_output(
    args: Seq<Seq<char>>,
    i: int,
    outputs: Seq<(Seq<char>, i32)>,
    source: Option<Seq<char>>,
)
    ensures
        parse_from(args, i, outputs, source) matches Ok(r) ==> r.0.len() > 0,
    decreases args.len() - i,
{
    if 0 <= i && i + 1 < args.len() {
        let flag = args[i];
        let value = args[i + 1];
        if flag == "--to"@ {
            lemma_parse_from_has_output(args, i + 2, outputs.push((value, 0i32)), source);
        } else if flag == "--offset-ms"@ {
            if let Some(ms) = decimal_i32(value) {
                if MIN_OFFSET_MS <= ms <= MAX_OFFSET_MS && outputs.len() > 0 {
                    lemma_parse_from_has_output(
                        args,
                        i + 2,
                        outputs.update(outputs.len() - 1, (outputs.last().0, ms)),
                        source,
                    );
                }
            }
        } else if flag == "--source"@ {
            lemma_parse_from_has_output(args, i + 2, outputs, Some(value));
        }
    }
}

/// A run that parses names at least one output.
pub proof fn lemma_parsed_run_has_output(args: Seq<Seq<char>>)
    ensures
        parse_spec(args) matches Ok(r) ==> r.0.len() > 0,
{
    lemma_parse_from_has_output(args, 0, Seq::empty(), None);
}

/// An `--offset-ms` sets the offset of the `--to` just before it and leaves
/// every other output alone: after `--to v --offset-ms n`, with `n` within
/// -200..=200, the latest output is `v` with offset `n`.
pub proof fn lemma_offset_binds_to_preceding_to(
    args: Seq<Seq<char>>,
    i: int,
    outputs: Seq<(Seq<char>, i32)>,
    source: Option<Seq<char>>,
    ms: i32,
)
    requires
        0 <= i,
        i + 3 < args.len(),
        args[i] == "--to"@,
        args[i + 2] == "--offset-ms"@,
        decimal_i32(args[i + 3]) == Some(ms),
        MIN_OFFSET_MS <= ms <= MAX_OFFSET_MS,
    ensures
        parse_from(args, i, outputs, source) == parse_from(
            args,
            i + 4,
            outputs.push((args[i + 1], ms)),
            source,
        ),
{
    reveal_strlit("--to");
    reveal_strlit("--offset-ms");
    assert("--to"@ != "--offset-ms"@) by {
        assert("--to"@.len() != "--offset-ms"@.len());
    }
    let pushed = outputs.push((args[i + 1], 0i32));
    assert(parse_from(args, i, outputs, source) == parse_from(args, i + 2, pushed, source));
    assert(pushed.update(pushed.len() - 1, (pushed.last().0, ms)) =~= outputs.push(
        (args[i + 1], ms),
    ));
}

fn concat2(a: &str, b: &str) -> (r: String)
    ensures
        r@ == a@ + b@,
{
    let mut r = String::from_str(a);
    r.append(b);
    r
}

/// Parses the arguments of `run` into the outputs and source they name.
pub fn parse(args: &[String]) -> (r: std::result::Result<Spec, String>)
    ensures
        match r {
            Ok(spec) => parse_spec(texts(args@)) == Ok::<
                (Seq<(Seq<char>, i32)>, Option<Seq<char>>),
                Seq<char>,
            >((outputs_view(spec.outputs@), opt_text(spec.source))),
            Err(msg) => parse_spec(texts(args@)) == Err::<
                (Seq<(Seq<char>, i32)>, Option<Seq<char>>),
                Seq<char>,
            >(msg@),
        },
{
    let ghost all = texts(args@);
    let to = String::from_str("--to");
    let offset = String::from_str("--offset-ms");
    let source_flag = String::from_str("--source");
    let mut outputs: Vec<(String, i32)> = Vec::new();
    let mut source: Option<String> = None;
    let mut i: usize = 0;
    assert(outputs_view(outputs@) =~= Seq::<(Seq<char>, i32)>::empty());
    while i < args.len()
        invariant
            all == texts(args@),
            to@ == "--to"@,
            offset@ == "--offset-ms"@,
            source_flag@ == "--source"@,
            i <= args.len(),
            parse_spec(all) == parse_from(
                all,
                i as int,
                outputs_view(outputs@),
                opt_text(source),
            ),
        decreases args.len() - i,
    {
        let flag = &args[i];
        if i + 1 >= args.len() {
            return Err(concat2(flag.as_str(), " needs a value"));
        }
        let value = &args[i + 1];
        assert(all[i as int] == flag@ && all[i + 1] == value@);
        if *flag == to {
            let ghost before = outputs_view(outputs@);
            outputs.push((value.clone(), 0));
            assert(outputs_view(outputs@) =~= before.push((value@, 0i32)));
        } else if *flag == offset {
            match parse_i32(value.as_str()) {
                None => {
                    let quoted = debug_quoted(value.as_str());
                    return Err(concat2("--offset-ms wants an integer, got ", quoted.as_str()));
                },
                Some(ms) => {
                    if ms < MIN_OFFSET_MS || ms > MAX_OFFSET_MS {
                        let quoted = debug_quoted(value.as_str());
                        return Err(
                            concat2("--offset-ms must lie in -200..=200, got ", quoted.as_str()),
                        );
                    }
                    if outputs.len() == 0 {
                        return Err(String::from_str("--offset-ms must follow a --to"));
                    }
                    let ghost before = outputs_view(outputs@);
                    let last = outputs.pop().unwrap();
                    outputs.push((last.0, ms));
                    assert(outputs_view(outputs@) =~= before.update(
                        before.len() - 1,
                        (before.last().0, ms),
                    ));
                },
            }
        } else if *flag == source_flag {
            source = Some(value.clone());
        } else {
            let quoted = debug_quoted(flag.as_str());
            let mut msg = concat2("unknown flag ", quoted.as_str());
            msg.append("\n\n");
            msg.append(USAGE);
            return Err(msg);
        }
        i = i + 2;
    }
    if outputs.len() == 0 {
        return Err(concat2("run needs at least one --to\n\n", USAGE));
    }
    Ok(Spec { outputs, source })
}

/// What the first argument asks for.
#[derive(Debug, Clone, Copy, PartialEq, Eq, Structural)]
pub enum Command {
    /// Print the render endpoints.
    List,
    /// Start the engine with the flags after `run`.
    Run,
    /// Print the help text.
    Help,
}

pub open spec fn unknown_command_message(command: Seq<char>) -> Seq<char> {
    "unknown command "@ + debug_text(command) + "\n\n"@ + USAGE@
}

/// The command that `args` (without the program name) selects.
pub open spec fn command_of(args: Seq<Seq<char>>) -> std::result::Result<Command, Seq<char>> {
    if args.len() == 0 {
        Ok(Command::Help)
    } else if args[0] == "list"@ {
        Ok(Command::List)
    } else if args[0] == "run"@ {
        Ok(Command::Run)
    } else if args[0] == "-h"@ || args[0] == "--help"@ {
        Ok(Command::Help)
    } else {
        Err(unknown_command_message(args[0]))
    }
}

/// Picks the command from the arguments that follow the program name; the
/// flags of `run` are the arguments after the first.
pub fn select_command(args: &[String]) -> (r: std::result::Result<Command, String>)
    ensures
        match r {
            Ok(c) => command_of(texts(args@)) == Ok::<Command, Seq<char>>(c),
            Err(msg) => command_of(texts(args@)) == Err::<Command, Seq<char>>(msg@),
        },
{
    if args.len() == 0 {
        return Ok(Command::Help);
    }
    let first = &args[0];
    assert(texts(args@)[0] == first@);
    if *first == String::from_str("list") {
        Ok(Command::List)
    } else if *first == String::from_str("run") {
        Ok(Command::Run)
    } else if *first == String::from_str("-h") || *first == String::from_str("--help") {
        Ok(Command::Help)
    } else {
        let quoted = debug_quoted(first.as_str());
        let mut msg = concat2("unknown command ", quoted.as_str());
        msg.append("\n\n");
        msg.append(USAGE);
        Err(msg)
    }
}

/// The render endpoints, with a failure turned into its message.
pub fn devices() -> (r: std::result::Result<Vec<DeviceInfo>, String>)
    ensures
        r matches Err(msg) && msg@ == Error::Unsupported.message(),
{
    match list_outputs() {
        Ok(list) => Ok(list),
        Err(e) => Err(e.to_string()),
    }
}

/// Whether some device has exactly the id `query`.
pub open spec fn has_id(devices: Seq<DeviceInfo>, query: Seq<char>) -> bool {
    exists|i: int| 0 <= i < devices.len() && (#[trigger] devices[i]).id@ == query
}

/// Whether the name of a device matches `query`, ignoring case.
pub open spec fn name_matches(name: Seq<char>, query: Seq<char>) -> bool {
    text_contains(lowercase(name), lowercase(query))
}

/// The devices whose names match `query`, in their order.
pub open spec fn name_hits(devices: Seq<DeviceInfo>, query: Seq<char>) -> Seq<DeviceInfo>
    decreases devices.len(),
{
    if devices.len() == 0 {
        Seq::empty()
    } else {
        let rest = name_hits(devices.drop_last(), query);
        if name_matches(devices.last().name@, query) {
            rest.push(devices.last())
        } else {
            rest
        }
    }
}

/// The names of `devices`, separated by a comma and a space.
pub open spec fn joined_names(devices: Seq<DeviceInfo>) -> Seq<char>
    decreases devices.len(),
{
    if devices.len() == 0 {
        Seq::empty()
    } else if devices.len() == 1 {
        devices[0].name@
    } else {
        joined_names(devices.drop_last()) + ", "@ + devices.last().name@
    }
}

/// Which endpoint id `query` stands for: an exact id wins; otherwise the
/// one device whose name contains the query, ignoring case. No match and
/// several matches are errors.
pub open spec fn resolution(devices: Seq<DeviceInfo>, query: Seq<char>) -> std::result::Result<
    Seq<char>,
    Seq<char>,
> {
    if has_id(devices, query) {
        Ok(query)
    } else {
        let hits = name_hits(devices, query);
        if hits.len() == 0 {
            Err("no device matches "@ + debug_text(query))
        } else if hits.len() == 1 {
            Ok(hits[0].id@)
        } else {
            Err(debug_text(query) + " matches "@ + joined_names(hits))
        }
    }
}

/// Turns a device name or id into the endpoint id it stands for.
pub fn resolve(devices: &[DeviceInfo], query: &str) -> (r: std::result::Result<String, String>)
    ensures
        match r {
            Ok(id) => resolution(devices@, query@) == Ok::<Seq<char>, Seq<char>>(id@),
            Err(msg) => resolution(devices@, query@) == Err::<Seq<char>, Seq<char>>(msg@),
        },
{
    let wanted = String::from_str(query);
    let mut i: usize = 0;
    while i < devices.len()
        invariant
            wanted@ == query@,
            i <= devices.len(),
            forall|k: int| 0 <= k < i ==> (#[trigger] devices@[k]).id@ != query@,
        decreases devices.len() - i,
    {
        if devices[i].id == wanted {
            assert(has_id(devices@, query@)) by {
                assert(devices@[i as int].id@ == query@);
            }
            return Ok(wanted);
        }
        i = i + 1;
    }
    assert(!has_id(devices@, query@));
    let needle = to_lowercase(query);
    let mut hits: Vec<usize> = Vec::new();
    let mut i: usize = 0;
    while i < devices.len()
        invariant
            needle@ == lowercase(query@),
            i <= devices.len(),
            forall|k: int| 0 <= k < hits.len() ==> #[trigger] hits@[k] < devices.len(),
            hits@.map_values(|k: usize| devices@[k as int]) == name_hits(
                devices@.subrange(0, i as int),
                query@,
            ),
        decreases devices.len() - i,
    {
        let name = to_lowercase(devices[i].name.as_str());
        let ghost before = hits@;
        let ghost seen = devices@.subrange(0, i + 1);
        assert(seen.drop_last() =~= devices@.subrange(0, i as int));
        assert(seen.last() == devices@[i as int]);
        if contains_text(name.as_str(), needle.as_str()) {
            hits.push(i);
            assert(hits@.map_values(|k: usize| devices@[k as int]) =~= before.map_values(
                |k: usize| devices@[k as int],
            ).push(devices@[i as int]));
        }
        i = i + 1;
    }
    assert(devices@.subrange(0, devices.len() as int) =~= devices@);
    let ghost found = name_hits(devices@, query@);
    assert(hits@.len() == found.len());
    if hits.len() == 0 {
        let quoted = debug_quoted(query);
        return Err(concat2("no device matches ", quoted.as_str()));
    }
    if hits.len() == 1 {
        assert(found[0] == devices@[hits@[0] as int]);
        return Ok(devices[hits[0]].id.clone());
    }
    let quoted = debug_quoted(query);
    let mut msg = concat2(quoted.as_str(), " matches ");
    let mut names = devices[hits[0]].name.clone();
    let mut j: usize = 1;
    assert(found.subrange(0, 1) =~= seq![found[0]]);
    while j < hits.len()
        invariant
            1 <= j <= hits.len(),
            found == hits@.map_values(|k: usize| devices@[k as int]),
            forall|k: int| 0 <= k < hits.len() ==> #[trigger] hits@[k] < devices.len(),
            names@ == joined_names(found.subrange(0, j as int)),
        decreases hits.len() - j,
    {
        names.append(", ");
        names.append(devices[hits[j]].name.as_str());
        let ghost next = found.subrange(0, j + 1);
        assert(next.drop_last() =~= found.subrange(0, j as int));
        j = j + 1;
    }
    assert(found.subrange(0, hits.len() as int) =~= found);
    msg.append(names.as_str());
    Err(msg)
}

/// An exact id always wins over name matches.
pub proof fn lemma_exact_id_wins(devices: Seq<DeviceInfo>, query: Seq<char>, i: int)
    requires
        0 <= i < devices.len(),
        devices[i].id@ == query,
    ensures
        resolution(devices, query) == Ok::<Seq<char>, Seq<char>>(query),
{
    assert(has_id(devices, query));
}

proof fn lemma_name_hits_are_matches(devices: Seq<DeviceInfo>, query: Seq<char>, k: int)
    requires
        0 <= k < name_hits(devices, query).len(),
    ensures
        name_matches(name_hits(devices, query)[k].name@, query),
        devices.contains(name_hits(devices, query)[k]),
    decreases devices.len(),
{
    let init = devices.drop_last();
    let rest = name_hits(init, query);
    if k < rest.len() {
        lemma_name_hits_are_matches(init, query, k);
        let j = choose|j: int| 0 <= j < init.len() && init[j] == rest[k];
        assert(devices[j] == init[j]);
    } else {
        assert(devices[devices.len() - 1] == devices.last());
    }
}

/// Without an exact id, a query resolves to the id of a device whose name
/// contains the query, ignoring case, and only when no other name does.
pub proof fn lemma_name_match_is_unique(devices: Seq<DeviceInfo>, query: Seq<char>)
    ensures
        !has_id(devices, query) && resolution(devices, query) is Ok ==> {
            let hits = name_hits(devices, query);
            &&& hits.len() == 1
            &&& devices.contains(hits[0])
            &&& name_matches(hits[0].name@, query)
            &&& resolution(devices, query) == Ok::<Seq<char>, Seq<char>>(hits[0].id@)
        },
{
    if !has_id(devices, query) && name_hits(devices, query).len() == 1 {
        lemma_name_hits_are_matches(devices, query, 0);
    }
}

/// Every offset of a parsed run lies within -200..=200.
pub proof fn lemma_parsed_offsets_in_range(args: Seq<Seq<char>>)
    ensures
        parse_spec(args) matches Ok(r) ==> forall|k: int|
            0 <= k < r.0.len() ==> MIN_OFFSET_MS <= #[trigger] r.0[k].1 <= MAX_OFFSET_MS,
{
    lemma_parse_from_offsets_in_range(args, 0, Seq::empty(), None);
}

proof fn lemma_parse_from_offsets_in_range(
    args: Seq<Seq<char>>,
    i: int,
    outputs: Seq<(Seq<char>, i32)>,
    source: Option<Seq<char>>,
)
    requires
        forall|k: int| 0 <= k < outputs.len() ==> MIN_OFFSET_MS <= #[trigger] outputs[k].1 <= MAX_OFFSET_MS,
    ensures
        parse_from(args, i, outputs, source) matches Ok(r) ==> forall|k: int|
            0 <= k < r.0.len() ==> MIN_OFFSET_MS <= #[trigger] r.0[k].1 <= MAX_OFFSET_MS,
    decreases args.len() - i,
{
    if 0 <= i && i + 1 < args.len() {
        let flag = args[i];
        let value = args[i + 1];
        if flag == "--to"@ {
            let next = outputs.push((value, 0i32));
            assert forall|k: int| 0 <= k < next.len() implies MIN_OFFSET_MS <= #[trigger] next[k].1
                <= MAX_OFFSET_MS by {
                if k < outputs.len() {
                    assert(next[k] == outputs[k]);
                }
            }
            lemma_parse_from_offsets_in_range(args, i + 2, next, source);
        } else if flag == "--offset-ms"@ {
            if let Some(ms) = decimal_i32(value) {
                if MIN_OFFSET_MS <= ms <= MAX_OFFSET_MS && outputs.len() > 0 {
                    let next = outputs.update(outputs.len() - 1, (outputs.last().0, ms));
                    assert forall|k: int| 0 <= k < next.len() implies MIN_OFFSET_MS <= #[trigger] next[k].1
                        <= MAX_OFFSET_MS by {
                        if k < outputs.len() - 1 {
                            assert(next[k] == outputs[k]);
                        }
                    }
                    lemma_parse_from_offsets_in_range(args, i + 2, next, source);
                }
            }
        } else if flag == "--source"@ {
            lemma_parse_from_offsets_in_range(args, i + 2, outputs, Some(value));
        }
    }
}

/// Whether the lower-cased `query` occurs somewhere in the lower-cased
/// `name`, at the start, in the middle or at the end.
pub open spec fn occurs_in_name(name: Seq<char>, query: Seq<char>) -> bool {
    let hay = lowercase(name);
    let needle = lowercase(query);
    exists|k: int|
        0 <= k && k + needle.len() <= hay.len() && #[trigger] hay.subrange(k, k + needle.len())
            == needle
}

proof fn lemma_matches_iff_occurs(name: Seq<char>, query: Seq<char>)
    ensures
        name_matches(name, query) <==> occurs_in_name(name, query),
{
    let hay = lowercase(name);
    let needle = lowercase(query);
    if name_matches(name, query) {
        let k = choose|k: int| crate::text::occurs_at(hay, needle, k);
        assert(hay.subrange(k, k + needle.len()) == needle);
    }
    if occurs_in_name(name, query) {
        let k = choose|k: int|
            0 <= k && k + needle.len() <= hay.len() && #[trigger] hay.subrange(k, k + needle.len())
                == needle;
        assert(crate::text::occurs_at(hay, needle, k));
    }
}

/// The name hits are exactly the devices whose lower-cased name contains
/// the lower-cased query anywhere.
pub proof fn lemma_name_hits_are_all_matches(devices: Seq<DeviceInfo>, query: Seq<char>, d: DeviceInfo)
    ensures
        name_hits(devices, query).contains(d) <==> (devices.contains(d) && occurs_in_name(
            d.name@,
            query,
        )),
    decreases devices.len(),
{
    lemma_matches_iff_occurs(d.name@, query);
    if devices.len() > 0 {
        let init = devices.drop_last();
        let rest = name_hits(init, query);
        lemma_name_hits_are_all_matches(init, query, d);
        assert(devices =~= init.push(devices.last()));
        if devices.contains(d) {
            let k = choose|k: int| 0 <= k < devices.len() && devices[k] == d;
            if k < init.len() {
                assert(init[k] == d);
            }
        }
        if init.contains(d) {
            let k = choose|k: int| 0 <= k < init.len() && init[k] == d;
            assert(devices[k] == d);
        }
        if name_matches(devices.last().name@, query) {
            let out = rest.push(devices.last());
            if out.contains(d) {
                let k = choose|k: int| 0 <= k < out.len() && out[k] == d;
                if k < rest.len() {
                    assert(rest[k] == d);
                }
            }
            if rest.contains(d) {
                let k = choose|k: int| 0 <= k < rest.len() && rest[k] == d;
                assert(out[k] == d);
            }
            assert(out[rest.len() as int] == devices.last());
            assert(devices[devices.len() - 1] == devices.last());
        } else {
            assert(devices[devices.len() - 1] == devices.last());
            lemma_matches_iff_occurs(devices.last().name@, query);
        }
    } else {
        assert(name_hits(devices, query) =~= Seq::<DeviceInfo>::empty());
    }
}

proof fn lemma_no_match_no_hits(devices: Seq<DeviceInfo>, query: Seq<char>)
    requires
        forall|j: int| 0 <= j < devices.len() ==> !occurs_in_name(#[trigger] devices[j].name@, query),
    ensures
        name_hits(devices, query).len() == 0,
    decreases devices.len(),
{
    if devices.len() > 0 {
        let init = devices.drop_last();
        assert forall|j: int| 0 <= j < init.len() implies !occurs_in_name(#[trigger] init[j].name@, query) by {
            assert(init[j] == devices[j]);
        }
        lemma_no_match_no_hits(init, query);
        assert(devices[devices.len() - 1] == devices.last());
        lemma_matches_iff_occurs(devices.last().name@, query);
    }
}

proof fn lemma_one_match_one_hit(devices: Seq<DeviceInfo>, query: Seq<char>, i: int)
    requires
        0 <= i < devices.len(),
        occurs_in_name(devices[i].name@, query),
        forall|j: int| 0 <= j < devices.len() && j != i ==> !occurs_in_name(#[trigger] devices[j].name@, query),
    ensures
        name_hits(devices, query) == seq![devices[i]],
    decreases devices.len(),
{
    let init = devices.drop_last();
    assert(devices[devices.len() - 1] == devices.last());
    lemma_matches_iff_occurs(devices.last().name@, query);
    if i == devices.len() - 1 {
        assert forall|j: int| 0 <= j < init.len() implies !occurs_in_name(#[trigger] init[j].name@, query) by {
            assert(init[j] == devices[j]);
        }
        lemma_no_match_no_hits(init, query);
        assert(name_hits(init, query) =~= Seq::<DeviceInfo>::empty());
        assert(name_hits(devices, query) =~= seq![devices[i]]);
    } else {
        assert(init[i] == devices[i]);
        assert forall|j: int| 0 <= j < init.len() && j != i implies !occurs_in_name(
            #[trigger] init[j].name@,
            query,
        ) by {
            assert(init[j] == devices[j]);
        }
        lemma_one_match_one_hit(init, query, i);
    }
}

proof fn lemma_two_matches_two_hits(devices: Seq<DeviceInfo>, query: Seq<char>, i: int, j: int)
    requires
        0 <= i < j < devices.len(),
        occurs_in_name(devices[i].name@, query),
        occurs_in_name(devices[j].name@, query),
    ensures
        name_hits(devices, query).len() >= 2,
    decreases devices.len(),
{
    let init = devices.drop_last();
    assert(devices[devices.len() - 1] == devices.last());
    lemma_matches_iff_occurs(devices.last().name@, query);
    if j == devices.len() - 1 {
        assert(init[i] == devices[i]);
        assert(init.contains(devices[i]));
        lemma_name_hits_are_all_matches(init, query, devices[i]);
    } else {
        assert(init[i] == devices[i]);
        assert(init[j] == devices[j]);
        lemma_two_matches_two_hits(init, query, i, j);
    }
}

/// Without an exact id: when exactly one device's lower-cased name contains
/// the lower-cased query anywhere, the query resolves to that device's id;
/// when none does, or two devices do, resolving fails.
pub proof fn lemma_resolution_by_name(devices: Seq<DeviceInfo>, query: Seq<char>)
    requires
        !has_id(devices, query),
    ensures
        forall|i: int|
            0 <= i < devices.len() && occurs_in_name(#[trigger] devices[i].name@, query) && (forall|
                j: int,
            |
                0 <= j < devices.len() && j != i ==> !occurs_in_name(#[trigger] devices[j].name@, query))
                ==> resolution(devices, query) == Ok::<Seq<char>, Seq<char>>(devices[i].id@),
        (forall|j: int| 0 <= j < devices.len() ==> !occurs_in_name(#[trigger] devices[j].name@, query))
            ==> resolution(devices, query) is Err,
        forall|i: int, j: int|
            0 <= i < j < devices.len() && occurs_in_name(#[trigger] devices[i].name@, query)
                && occurs_in_name(#[trigger] devices[j].name@, query) ==> resolution(devices, query) is Err,
{
    assert forall|i: int|
        0 <= i < devices.len() && occurs_in_name(#[trigger] devices[i].name@, query) && (forall|j: int|
            0 <= j < devices.len() && j != i ==> !occurs_in_name(#[trigger] devices[j].name@, query))
            implies resolution(devices, query) == Ok::<Seq<char>, Seq<char>>(devices[i].id@) by {
        lemma_one_match_one_hit(devices, query, i);
    }
    if forall|j: int| 0 <= j < devices.len() ==> !occurs_in_name(#[trigger] devices[j].name@, query) {
        lemma_no_match_no_hits(devices, query);
    }
    assert forall|i: int, j: int|
        0 <= i < j < devices.len() && occurs_in_name(#[trigger] devices[i].name@, query)
            && occurs_in_name(#[trigger] devices[j].name@, query) implies resolution(devices, query) is Err by {
        lemma_two_matches_two_hits(devices, query, i, j);
    }
}

/// Whether `j` is a flag position when flags are read in pairs from `start`.
#[verifier::opaque]
pub open spec fn flag_position(start: int, j: int) -> bool {
    j >= start && (j - start) % 2 == 0
}

proof fn lemma_flag_positions(i: int)
    ensures
        flag_position(i, i),
        forall|k: int| #[trigger] flag_position(i + 2, k) ==> flag_position(i, k) && k > i,
        forall|k: int| #[trigger] flag_position(i, k) && k != i ==> flag_position(i + 2, k),
{
    reveal(flag_position);
    assert forall|k: int| #[trigger] flag_position(i, k) && k != i implies flag_position(i + 2, k) by {
        assert((k - i) % 2 == 0);
        assert(k - (i + 2) == (k - i) - 2);
    }
}

/// Whether a `--source` flag stands at a flag position after `j`.
pub open spec fn later_source(args: Seq<Seq<char>>, start: int, j: int) -> bool {
    exists|k: int| j < k < args.len() && #[trigger] flag_position(start, k) && args[k] == "--source"@
}

/// One step of parsing: a run that parses from `i` parses the rest from
/// `i + 2`, with the source replaced exactly when the flag at `i` is
/// `--source`; at the end of the arguments the source is what it was.
proof fn lemma_parse_step(
    args: Seq<Seq<char>>,
    i: int,
    outputs: Seq<(Seq<char>, i32)>,
    source: Option<Seq<char>>,
) -> (next: Seq<(Seq<char>, i32)>)
    requires
        0 <= i,
        parse_from(args, i, outputs, source) is Ok,
    ensures
        i + 1 < args.len() ==> parse_from(args, i, outputs, source) == parse_from(
            args,
            i + 2,
            next,
            if args[i] == "--source"@ {
                Some(args[i + 1])
            } else {
                source
            },
        ),
        i + 1 >= args.len() ==> i >= args.len() && parse_from(args, i, outputs, source)->Ok_0.1
            == source,
{
    reveal_strlit("--to");
    reveal_strlit("--offset-ms");
    reveal_strlit("--source");
    assert("--to"@ != "--source"@) by {
        assert("--to"@.len() != "--source"@.len());
    }
    assert("--offset-ms"@ != "--source"@) by {
        assert("--offset-ms"@.len() != "--source"@.len());
    }
    if i + 1 < args.len() {
        let flag = args[i];
        let value = args[i + 1];
        if flag == "--to"@ {
            outputs.push((value, 0i32))
        } else if flag == "--offset-ms"@ {
            let ms = decimal_i32(value)->Some_0;
            outputs.update(outputs.len() - 1, (outputs.last().0, ms))
        } else {
            outputs
        }
    } else {
        outputs
    }
}

proof fn lemma_source_from(
    args: Seq<Seq<char>>,
    i: int,
    outputs: Seq<(Seq<char>, i32)>,
    source: Option<Seq<char>>,
)
    requires
        0 <= i,
    ensures
        parse_from(args, i, outputs, source) matches Ok(r) ==> {
            &&& forall|j: int|
                #![trigger flag_position(i, j)]
                0 <= j < args.len() && flag_position(i, j) && args[j] == "--source"@ && !later_source(
                    args,
                    i,
                    j,
                ) ==> j + 1 < args.len() && r.1 == Some(args[j + 1])
            &&& (forall|j: int| 0 <= j < args.len() && #[trigger] flag_position(i, j) ==> args[j]
                != "--source"@) ==> r.1 == source
        },
    decreases args.len() - i,
{
    if parse_from(args, i, outputs, source) is Ok {
        let r = parse_from(args, i, outputs, source)->Ok_0;
        let next = lemma_parse_step(args, i, outputs, source);
        lemma_flag_positions(i);
        if i + 1 < args.len() {
            let next_source = if args[i] == "--source"@ {
                Some(args[i + 1])
            } else {
                source
            };
            lemma_source_from(args, i + 2, next, next_source);
            assert forall|j: int|
                #![trigger flag_position(i, j)]
                0 <= j < args.len() && flag_position(i, j) && args[j] == "--source"@ && !later_source(
                    args,
                    i,
                    j,
                ) implies j + 1 < args.len() && r.1 == Some(args[j + 1]) by {
                if j == i {
                    assert forall|k: int|
                        0 <= k < args.len() && #[trigger] flag_position(i + 2, k) implies args[k]
                        != "--source"@ by {
                        assert(flag_position(i, k) && k > j);
                    }
                } else {
                    assert(flag_position(i + 2, j));
                    if later_source(args, i + 2, j) {
                        let k = choose|k: int|
                            j < k < args.len() && #[trigger] flag_position(i + 2, k) && args[k]
                                == "--source"@;
                        assert(flag_position(i, k));
                    }
                }
            }
            if forall|j: int| 0 <= j < args.len() && #[trigger] flag_position(i, j) ==> args[j]
                != "--source"@ {
                assert(args[i] != "--source"@);
                assert forall|k: int|
                    0 <= k < args.len() && #[trigger] flag_position(i + 2, k) implies args[k]
                    != "--source"@ by {
                    assert(flag_position(i, k));
                }
            }
        } else {
            assert forall|j: int|
                #![trigger flag_position(i, j)]
                0 <= j < args.len() && flag_position(i, j) && args[j] == "--source"@ && !later_source(
                    args,
                    i,
                    j,
                ) implies j + 1 < args.len() && r.1 == Some(args[j + 1]) by {
                reveal(flag_position);
            }
        }
    }
}

/// The capture source of a parsed run is the value of its last `--source`
/// flag, wherever that flag stands among the others, and the system
/// default (`None`) when there is no `--source` flag.
pub proof fn lemma_last_source_wins(args: Seq<Seq<char>>)
    ensures
        parse_spec(args) matches Ok(r) ==> {
            &&& forall|j: int|
                #![trigger flag_position(0, j)]
                0 <= j < args.len() && flag_position(0, j) && args[j] == "--source"@ && !later_source(
                    args,
                    0,
                    j,
                ) ==> j + 1 < args.len() && r.1 == Some(args[j + 1])
            &&& (forall|j: int| 0 <= j < args.len() && #[trigger] flag_position(0, j) ==> args[j]
                != "--source"@) ==> r.1 is None
        },
{
    lemma_source_from(args, 0, Seq::empty(), None);
}

} // verus!
