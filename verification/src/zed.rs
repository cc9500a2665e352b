//! What the Zed extension decides about starting the MCP server, apart from
//! asking Zed and the login shell.
use vstd::prelude::*;

use crate::text::{lines_of, push_str, rows, split_lines, string_from_chars, trim, trim_str};

verus! {

/// The pairs of `names` with the lines the shell printed for them, in order,
/// as far as both go, without the pairs whose value is empty.
pub open spec fn named_pairs_of(names: Seq<Seq<char>>, values: Seq<Seq<char>>) -> Seq<
    (Seq<char>, Seq<char>),
>
    decreases names.len(),
{
    if names.len() == 0 || values.len() == 0 {
        seq![]
    } else {
        let rest = named_pairs_of(names.drop_first(), values.drop_first());
        if values[0].len() == 0 {
            rest
        } else {
            seq![(names[0], values[0])] + rest
        }
    }
}

/// How many of the first `i` values are not empty.
pub open spec fn nonempty_before(values: Seq<Seq<char>>, i: nat) -> nat
    decreases i,
{
    if i == 0 {
        0
    } else {
        nonempty_before(values, (i - 1) as nat) + if values[i - 1].len() > 0 {
            1nat
        } else {
            0nat
        }
    }
}

/// How far names and values both go.
pub open spec fn paired_len(names: Seq<Seq<char>>, values: Seq<Seq<char>>) -> nat {
    if names.len() <= values.len() {
        names.len()
    } else {
        values.len()
    }
}

proof fn lemma_nonempty_before_front(values: Seq<Seq<char>>, i: nat)
    requires
        i < values.len(),
    ensures
        nonempty_before(values, i + 1) == (if values[0].len() > 0 {
            1nat
        } else {
            0nat
        }) + nonempty_before(values.drop_first(), i),
    decreases i,
{
    let vs = values.drop_first();
    assert(nonempty_before(values, i + 1) == nonempty_before(values, i) + (if values[i as int].len()
        > 0 {
        1nat
    } else {
        0nat
    }));
    if i > 0 {
        lemma_nonempty_before_front(values, (i - 1) as nat);
        assert(vs[i - 1] == values[i as int]);
        assert(nonempty_before(vs, i) == nonempty_before(vs, (i - 1) as nat) + (if vs[i - 1].len()
            > 0 {
            1nat
        } else {
            0nat
        }));
    } else {
        assert(nonempty_before(values, 0) == 0);
        assert(nonempty_before(vs, 0) == 0);
    }
}

proof fn lemma_nonempty_before_grows(values: Seq<Seq<char>>, i: nat, j: nat)
    requires
        i <= j,
    ensures
        nonempty_before(values, i) <= nonempty_before(values, j),
    decreases j,
{
    if i < j {
        lemma_nonempty_before_grows(values, i, (j - 1) as nat);
    }
}

/// A name is paired with the line printed for it exactly when that line is
/// not empty, whatever it holds, and the kept pairs come in the names' order:
/// there are as many pairs as non-empty lines, as far as both go, and the
/// pair of the `i`th name comes after the pairs of the names before it.
pub proof fn law_named_pairs_keep_every_printed_value(
    names: Seq<Seq<char>>,
    values: Seq<Seq<char>>,
)
    ensures
        named_pairs_of(names, values).len() == nonempty_before(values, paired_len(names, values)),
        forall|i: int|
            0 <= i < paired_len(names, values) && (#[trigger] values[i]).len() > 0
                ==> named_pairs_of(names, values)[nonempty_before(values, i as nat) as int] == (
            names[i],
            values[i],
        ),
    decreases names.len(),
{
    let m = paired_len(names, values);
    if names.len() > 0 && values.len() > 0 {
        let ns = names.drop_first();
        let vs = values.drop_first();
        law_named_pairs_keep_every_printed_value(ns, vs);
        let rest = named_pairs_of(ns, vs);
        assert(paired_len(ns, vs) == m - 1);
        lemma_nonempty_before_front(values, (m - 1) as nat);
        let front: Seq<(Seq<char>, Seq<char>)> = if values[0].len() > 0 {
            seq![(names[0], values[0])]
        } else {
            seq![]
        };
        assert(named_pairs_of(names, values) == front + rest);
        assert forall|i: int|
            0 <= i < m && (#[trigger] values[i]).len() > 0 implies named_pairs_of(
                names,
                values,
            )[nonempty_before(values, i as nat) as int] == (names[i], values[i]) by {
            if i > 0 {
                lemma_nonempty_before_front(values, (i - 1) as nat);
                assert(vs[i - 1] == values[i]);
                assert(ns[i - 1] == names[i]);
                lemma_nonempty_before_grows(vs, i as nat, (m - 1) as nat);
                assert(nonempty_before(vs, i as nat) == nonempty_before(vs, (i - 1) as nat) + 1);
            }
        }
    } else {
        assert(m == 0);
    }
}

/// The names of a slice of names.
pub open spec fn name_views(names: Seq<&str>) -> Seq<Seq<char>> {
    names.map_values(|n: &str| n@)
}

/// The character sequences of a sequence of string pairs.
pub open spec fn pair_views(pairs: Seq<(String, String)>) -> Seq<(Seq<char>, Seq<char>)> {
    pairs.map_values(|p: (String, String)| (p.0@, p.1@))
}

/// Zips `names` with the lines the shell printed for them, dropping any that came back
/// empty so an unset variable is absent rather than set to nothing.
pub fn named_pairs(names: &[&str], probed: &str) -> (r: Vec<(String, String)>)
    ensures
        pair_views(r@) == named_pairs_of(name_views(names@), lines_of(probed@)),
        r@.len() == nonempty_before(
            lines_of(probed@),
            paired_len(name_views(names@), lines_of(probed@)),
        ),
        forall|i: int|
            0 <= i < paired_len(name_views(names@), lines_of(probed@)) && (
            #[trigger] lines_of(probed@)[i]).len() > 0 ==> {
                let k = nonempty_before(lines_of(probed@), i as nat) as int;
                &&& r@[k].0@ == names@[i]@
                &&& r@[k].1@ == lines_of(probed@)[i]
            },
{
    let values = split_lines(probed);
    let ghost ns = name_views(names@);
    let ghost vs = rows(values@);
    let mut stop: usize = names.len();
    if values.len() < stop {
        stop = values.len();
    }
    let mut r: Vec<(String, String)> = Vec::new();
    let mut i: usize = stop;
    while i > 0
        invariant
            ns == name_views(names@),
            vs == rows(values@),
            vs == lines_of(probed@),
            stop <= names@.len(),
            stop <= values@.len(),
            i <= stop,
            pair_views(r@) == named_pairs_of(ns.subrange(i as int, stop as int), vs.subrange(i as int, stop as int)),
        decreases i,
    {
        i = i - 1;
        let ghost tail_names = ns.subrange(i as int, stop as int);
        let ghost tail_values = vs.subrange(i as int, stop as int);
        assert(tail_names.drop_first() =~= ns.subrange(i + 1, stop as int));
        assert(tail_values.drop_first() =~= vs.subrange(i + 1, stop as int));
        assert(tail_values[0] == values@[i as int]@);
        assert(tail_names[0] == names@[i as int]@);
        if values[i].len() > 0 {
            let name = names[i].to_owned();
            let value = string_from_chars(&values[i]);
            let ghost before = r@;
            r.insert(0, (name, value));
            assert(pair_views(r@) =~= seq![(tail_names[0], tail_values[0])] + pair_views(before));
        }
    }
    proof {
        lemma_named_pairs_stop(ns, vs, stop as int);
        law_named_pairs_keep_every_printed_value(ns, vs);
        assert(pair_views(r@).len() == r@.len());
        assert forall|i: int|
            0 <= i < paired_len(ns, vs) && (#[trigger] vs[i]).len() > 0 implies {
                let k = nonempty_before(vs, i as nat) as int;
                &&& r@[k].0@ == names@[i]@
                &&& r@[k].1@ == vs[i]
            } by {
            let k = nonempty_before(vs, i as nat) as int;
            lemma_nonempty_before_grows(vs, (i + 1) as nat, paired_len(ns, vs));
            assert(nonempty_before(vs, (i + 1) as nat) == nonempty_before(vs, i as nat) + 1);
            assert(k < r@.len());
            assert(pair_views(r@)[k] == (r@[k].0@, r@[k].1@));
            assert(pair_views(r@)[k] == (ns[i], vs[i]));
            assert(ns[i] == names@[i]@);
        }
    }
    r
}

proof fn lemma_named_pairs_stop(ns: Seq<Seq<char>>, vs: Seq<Seq<char>>, stop: int)
    requires
        stop <= ns.len(),
        stop <= vs.len(),
        stop == ns.len() || stop == vs.len(),
        0 <= stop,
    ensures
        named_pairs_of(ns.subrange(0, stop), vs.subrange(0, stop)) == named_pairs_of(ns, vs),
    decreases stop,
{
    if stop > 0 {
        assert(ns.subrange(0, stop).drop_first() =~= ns.drop_first().subrange(0, stop - 1));
        assert(vs.subrange(0, stop).drop_first() =~= vs.drop_first().subrange(0, stop - 1));
        lemma_named_pairs_stop(ns.drop_first(), vs.drop_first(), stop - 1);
    } else {
        assert(ns.subrange(0, 0).len() == 0);
    }
}

/// The message for a server binary that could not be found: `reason`, then
/// the setting that pins the binary.
pub open spec fn unresolved_text(id: Seq<char>, reason: Seq<char>) -> Seq<char> {
    "Could not resolve the marginalia-mcp binary: "@ + reason + ". Set `context_servers."@ + id
        + ".command.path` in your Zed settings to its absolute path."@
}

/// The message for a server binary that could not be found, naming the
/// setting that pins it: `reason` and then where to set the path.
pub fn unresolved(id: &str, reason: &str) -> (r: String)
    ensures
        r@ == unresolved_text(id@, reason@),
{
    let mut r = String::new();
    push_str(&mut r, "Could not resolve the marginalia-mcp binary: ");
    push_str(&mut r, reason);
    push_str(&mut r, ". Set `context_servers.");
    push_str(&mut r, id);
    push_str(&mut r, ".command.path` in your Zed settings to its absolute path.");
    r
}

/// The first step of looking the server binary up: the script the login
/// shell runs to find it, or, on Windows, where no login shell is asked, the
/// message saying the binary cannot be looked up there.
pub fn lookup_script(id: &str, on_windows: bool) -> (r: Result<String, String>)
    ensures
        on_windows ==> (r matches Err(message) && message@ == unresolved_text(
            id@,
            "cannot look `marginalia-mcp` up automatically on Windows"@,
        )),
        !on_windows ==> (r matches Ok(script) && script@ == "command -v marginalia-mcp"@),
{
    if on_windows {
        return Err(unresolved(id, "cannot look `marginalia-mcp` up automatically on Windows"));
    }
    let mut r = String::new();
    push_str(&mut r, "command -v marginalia-mcp");
    Ok(r)
}

/// The server binary's path from what the login shell printed for the
/// lookup, trimmed at both ends, or the message saying why it could not be
/// had: the lookup printed nothing but whitespace, or the shell failed with
/// `Err`.
pub fn binary_path(id: &str, lookup_output: Result<String, String>) -> (r: Result<String, String>)
    ensures
        match lookup_output {
            Ok(printed) => if trim(printed@).len() > 0 {
                r matches Ok(path) && path@ == trim(printed@)
            } else {
                r matches Err(message) && message@ == unresolved_text(
                    id@,
                    "`command -v marginalia-mcp` found nothing"@,
                )
            },
            Err(failure) => r matches Err(message) && message@ == unresolved_text(id@, failure@),
        },
{
    match lookup_output {
        Ok(printed) => {
            let path = trim_str(printed.as_str());
            if path.as_str().is_empty() {
                Err(unresolved(id, "`command -v marginalia-mcp` found nothing"))
            } else {
                Ok(path)
            }
        },
        Err(failure) => Err(unresolved(id, failure.as_str())),
    }
}

/// The script the login shell runs to print the variables the server is
/// given, one line each: `PATH`, then `HOME`.
pub fn env_probe_script() -> (r: String)
    ensures
        r@ == "printf '%s\\n%s\\n' \"$PATH\" \"$HOME\""@,
{
    let mut r = String::new();
    push_str(&mut r, "printf '%s\\n%s\\n' \"$PATH\" \"$HOME\"");
    r
}

/// How the server is started: the program, its arguments and its
/// environment.
#[derive(Debug, PartialEq, Eq)]
pub struct ServerCommand {
    pub command: String,
    pub args: Vec<String>,
    pub env: Vec<(String, String)>,
}

/// What the user pinned under `context_servers.<id>.command`: a path, the
/// arguments and the environment, each of which may be missing.
#[derive(Debug, PartialEq, Eq)]
pub struct CommandSettings {
    pub path: Option<String>,
    pub arguments: Option<Vec<String>>,
    pub env: Option<Vec<(String, String)>>,
}

/// Whether `command` starts the binary `settings` pins: its path, its
/// arguments (none when missing) and its environment (empty when missing).
pub open spec fn pins(settings: CommandSettings, command: ServerCommand) -> bool {
    &&& settings.path == Some(command.command)
    &&& command.args@ == match settings.arguments {
        Some(args) => args@,
        None => Seq::<String>::empty(),
    }
    &&& command.env@ == match settings.env {
        Some(env) => env@,
        None => Seq::<(String, String)>::empty(),
    }
}

/// A pinned command is started exactly as pinned: its path is the program,
/// every pinned argument is passed, in order, and so is every pinned
/// variable; a missing list of arguments or variables passes none.
pub proof fn law_pinned_command_is_started_as_pinned(
    settings: CommandSettings,
    command: ServerCommand,
)
    requires
        pins(settings, command),
    ensures
        settings.path == Some(command.command),
        settings.arguments matches Some(a) ==> command.args@ == a@,
        settings.arguments is None ==> command.args@.len() == 0,
        settings.env matches Some(e) ==> command.env@ == e@,
        settings.env is None ==> command.env@.len() == 0,
{
}

/// The binary the user pinned, if they pinned one: settings with a path.
pub fn pinned_command(settings: Option<CommandSettings>) -> (r: Option<ServerCommand>)
    ensures
        match settings {
            Some(s) if s.path is Some => r matches Some(c) && pins(s, c),
            _ => r is None,
        },
        r matches Some(c) ==> settings matches Some(s) && s.path == Some(c.command) && (
        s.arguments matches Some(a) ==> c.args@ == a@) && (s.arguments is None ==> c.args@.len()
            == 0) && (s.env matches Some(e) ==> c.env@ == e@) && (s.env is None ==> c.env@.len()
            == 0),
{
    let settings = match settings {
        Some(s) => s,
        None => return None,
    };
    let command = match settings.path {
        Some(path) => path,
        None => return None,
    };
    let args = match settings.arguments {
        Some(args) => args,
        None => Vec::new(),
    };
    let env = match settings.env {
        Some(env) => env,
        None => Vec::new(),
    };
    Some(ServerCommand { command, args, env })
}

/// The first step of starting the server.
#[derive(Debug, PartialEq, Eq)]
pub enum CommandStep {
    /// Start the binary the user pinned.
    Use(ServerCommand),
    /// Look the binary up through the login shell; when that fails, its error
    /// is reported together with why the settings could not be read, if they
    /// could not.
    Discover { settings_error: Option<String> },
}

/// The first step of starting the server, from the context server's command
/// settings, or why they could not be read: a pinned binary is used as it is,
/// and anything else is looked up.
pub fn context_server_command(settings: Result<Option<CommandSettings>, String>) -> (r:
    CommandStep)
    ensures
        match settings {
            Ok(Some(s)) if s.path is Some => r matches CommandStep::Use(c) && pins(s, c),
            Ok(_) => r == (CommandStep::Discover { settings_error: None }),
            Err(e) => r == (CommandStep::Discover { settings_error: Some(e) }),
        },
{
    match settings {
        Ok(pinned) => match pinned_command(pinned) {
            Some(command) => CommandStep::Use(command),
            None => CommandStep::Discover { settings_error: None },
        },
        Err(e) => CommandStep::Discover { settings_error: Some(e) },
    }
}

/// The command the lookup found: the binary at `path`, no arguments, and the
/// variables the probe printed, paired with `PATH` and `HOME` in that order,
/// an unset one (printed as an empty line) left out; or the message when the
/// probe failed.
pub fn discovered_command(id: &str, path: String, probe_output: Result<String, String>) -> (r:
    Result<ServerCommand, String>)
    ensures
        match probe_output {
            Ok(printed) => r matches Ok(c) && c.command == path && c.args@.len() == 0
                && pair_views(c.env@) == named_pairs_of(
                seq!["PATH"@, "HOME"@],
                lines_of(printed@),
            ),
            Err(failure) => r matches Err(message) && message@ == unresolved_text(id@, failure@),
        },
{
    match probe_output {
        Ok(printed) => {
            let names: [&str; 2] = ["PATH", "HOME"];
            let env = named_pairs(&names, printed.as_str());
            assert(name_views(names@) =~= seq!["PATH"@, "HOME"@]);
            Ok(ServerCommand { command: path, args: Vec::new(), env })
        },
        Err(failure) => Err(unresolved(id, failure.as_str())),
    }
}

/// The error reported when no binary is pinned and discovery failed: the
/// discovery error, followed by why the settings could not be read when they
/// could not.
pub fn discovery_error(error: String, settings_error: Option<String>) -> (r: String)
    ensures
        match settings_error {
            None => r == error,
            Some(reason) => r@ == error@ + " Reading its settings also failed: "@ + reason@,
        },
{
    match settings_error {
        None => error,
        Some(reason) => {
            let mut r = error;
            push_str(&mut r, " Reading its settings also failed: ");
            push_str(&mut r, reason.as_str());
            r
        },
    }
}

} // verus!
