//! The command line of `nalias-lite`.

use vstd::prelude::*;

use crate::text::{str_eq, views};

verus! {

pub const HELP: &'static str = "Nalias Lite - minimal direct-wrapper aliases for Windows\n\nUsage:\n  nalias-lite [COMMAND]\n\nCommands:\n  init [--force] [--skip-path]       Install Nalias Lite\n  add <name> <command> [--force]     Create a direct .cmd alias\n  list                               List the aliases\n  show                               Open the alias folder\n  remove <name> [--yes]              Remove an alias\n  help                               Print this help\n\nRunning without arguments is equivalent to 'init --force'.\n";

#[derive(Debug, PartialEq, Eq)]
pub enum Command {
    Init { force: bool, skip_path: bool },
    Add { name: String, command: String, force: bool },
    List,
    Show,
    Remove { name: String, yes: bool },
    Help,
    Version,
}

/// A parsed command line as plain values, or the error text.
pub enum Parsed {
    Init { force: bool, skip_path: bool },
    Add { name: Seq<char>, command: Seq<char>, force: bool },
    List,
    Show,
    Remove { name: Seq<char>, yes: bool },
    Help,
    Version,
    Error(Seq<char>),
}

pub open spec fn too_many() -> Seq<char> {
    "too many arguments"@
}

pub open spec fn unknown_option() -> Seq<char> {
    "unknown option"@
}

pub open spec fn add_usage() -> Seq<char> {
    "usage: nalias-lite add <name> <command> [--force]"@
}

pub open spec fn remove_usage() -> Seq<char> {
    "usage: nalias-lite remove <name> [--yes]"@
}

pub open spec fn unknown_command() -> Seq<char> {
    "unknown command; run 'nalias-lite help'"@
}

/// Every value is one of `allowed`.
pub open spec fn only_allowed(rest: Seq<Seq<char>>, allowed: Seq<Seq<char>>) -> bool {
    forall|i: int| 0 <= i < rest.len() ==> allowed.contains(#[trigger] rest[i])
}

/// The meaning of the arguments `vs` (program name excluded).
pub open spec fn parse_spec(vs: Seq<Seq<char>>) -> Parsed {
    if vs.len() == 0 {
        Parsed::Init { force: true, skip_path: false }
    } else {
        let c = vs[0];
        if c == "help"@ || c == "--help"@ || c == "-h"@ {
            if vs.len() == 1 { Parsed::Help } else { Parsed::Error(too_many()) }
        } else if c == "--version"@ || c == "-V"@ {
            if vs.len() == 1 { Parsed::Version } else { Parsed::Error(too_many()) }
        } else if c == "init"@ {
            let rest = vs.skip(1);
            if only_allowed(rest, seq!["--force"@, "--skip-path"@]) {
                Parsed::Init { force: rest.contains("--force"@), skip_path: rest.contains("--skip-path"@) }
            } else {
                Parsed::Error(unknown_option())
            }
        } else if c == "list"@ {
            if vs.len() == 1 { Parsed::List } else { Parsed::Error(too_many()) }
        } else if c == "show"@ {
            if vs.len() == 1 { Parsed::Show } else { Parsed::Error(too_many()) }
        } else if c == "add"@ {
            if vs.len() < 3 {
                Parsed::Error(add_usage())
            } else {
                let rest = vs.skip(3);
                if only_allowed(rest, seq!["--force"@]) {
                    Parsed::Add { name: vs[1], command: vs[2], force: rest.contains("--force"@) }
                } else {
                    Parsed::Error(unknown_option())
                }
            }
        } else if c == "remove"@ {
            if vs.len() < 2 {
                Parsed::Error(remove_usage())
            } else {
                let rest = vs.skip(2);
                if only_allowed(rest, seq!["--yes"@, "-y"@]) {
                    Parsed::Remove { name: vs[1], yes: rest.contains("--yes"@) || rest.contains("-y"@) }
                } else {
                    Parsed::Error(unknown_option())
                }
            }
        } else {
            Parsed::Error(unknown_command())
        }
    }
}

/// Whether the result `r` is the parsed meaning `p`.
pub open spec fn parse_agrees(r: Result<Command, &'static str>, p: Parsed) -> bool {
    match p {
        Parsed::Init { force, skip_path } => r == Ok::<Command, &'static str>(
            Command::Init { force, skip_path },
        ),
        Parsed::Add { name, command, force } => r matches Ok(Command::Add { name: n, command: c, force: f })
            && n@ == name && c@ == command && f == force,
        Parsed::List => r == Ok::<Command, &'static str>(Command::List),
        Parsed::Show => r == Ok::<Command, &'static str>(Command::Show),
        Parsed::Remove { name, yes } => r matches Ok(Command::Remove { name: n, yes: y }) && n@ == name
            && y == yes,
        Parsed::Help => r == Ok::<Command, &'static str>(Command::Help),
        Parsed::Version => r == Ok::<Command, &'static str>(Command::Version),
        Parsed::Error(m) => r matches Err(e) && e@ == m,
    }
}

fn exact_len(values: &Vec<String>, length: usize) -> (r: Result<(), &'static str>)
    ensures
        r is Ok <==> values@.len() == length,
        r matches Err(e) ==> e@ == too_many(),
{
    if values.len() == length {
        Ok(())
    } else {
        Err("too many arguments")
    }
}

/// Whether `values[start..]` holds `flag`.
fn has_flag(values: &Vec<String>, start: usize, flag: &str) -> (r: bool)
    requires
        start <= values@.len(),
    ensures
        r == views(values@).skip(start as int).contains(flag@),
{
    let ghost rest = views(values@).skip(start as int);
    let mut i = start;
    while i < values.len()
        invariant
            start <= i <= values@.len(),
            rest == views(values@).skip(start as int),
            forall|j: int| 0 <= j < i - start ==> rest[j] != flag@,
        decreases values@.len() - i,
    {
        if str_eq(values[i].as_str(), flag) {
            assert(rest[i - start] == flag@);
            return true;
        }
        i = i + 1;
    }
    false
}

fn reject_unknown(values: &Vec<String>, start: usize, allowed: &Vec<&str>) -> (r: Result<
    (),
    &'static str,
>)
    requires
        start <= values@.len(),
    ensures
        r is Ok <==> only_allowed(
            views(values@).skip(start as int),
            allowed@.map_values(|a: &str| a@),
        ),
        r matches Err(e) ==> e@ == unknown_option(),
{
    let ghost rest = views(values@).skip(start as int);
    let ghost names = allowed@.map_values(|a: &str| a@);
    let mut i = start;
    while i < values.len()
        invariant
            start <= i <= values@.len(),
            rest == views(values@).skip(start as int),
            names == allowed@.map_values(|a: &str| a@),
            forall|j: int| 0 <= j < i - start ==> names.contains(#[trigger] rest[j]),
        decreases values@.len() - i,
    {
        let mut found = false;
        let mut k: usize = 0;
        while k < allowed.len()
            invariant
                k <= allowed@.len(),
                start <= i < values@.len(),
                rest == views(values@).skip(start as int),
                names == allowed@.map_values(|a: &str| a@),
                found ==> names.contains(rest[i - start]),
                !found ==> forall|t: int| 0 <= t < k ==> names[t] != rest[i - start],
            decreases allowed@.len() - k,
        {
            if !found && str_eq(values[i].as_str(), allowed[k]) {
                assert(names[k as int] == rest[i - start]);
                found = true;
            }
            k = k + 1;
        }
        if !found {
            assert(!names.contains(rest[i - start]));
            return Err("unknown option");
        }
        i = i + 1;
    }
    Ok(())
}

fn is_word(v: &String, w: &str) -> (r: bool)
    ensures
        r == (v@ == w@),
{
    str_eq(v.as_str(), w)
}

/// Interprets the arguments that follow the program name.
pub fn parse_values(values: Vec<String>) -> (r: Result<Command, &'static str>)
    ensures
        parse_agrees(r, parse_spec(views(values@))),
{
    let ghost vs = views(values@);
    if values.len() == 0 {
        return Ok(Command::Init { force: true, skip_path: false });
    }
    assert(vs[0] == values@[0]@);
    let first = &values[0];
    if is_word(first, "help") || is_word(first, "--help") || is_word(first, "-h") {
        exact_len(&values, 1)?;
        return Ok(Command::Help);
    }
    if is_word(first, "--version") || is_word(first, "-V") {
        exact_len(&values, 1)?;
        return Ok(Command::Version);
    }
    if is_word(first, "init") {
        let allowed = vec!["--force", "--skip-path"];
        assert(allowed@.map_values(|a: &str| a@) =~= seq!["--force"@, "--skip-path"@]);
        reject_unknown(&values, 1, &allowed)?;
        return Ok(
            Command::Init {
                force: has_flag(&values, 1, "--force"),
                skip_path: has_flag(&values, 1, "--skip-path"),
            },
        );
    }
    if is_word(first, "list") {
        exact_len(&values, 1)?;
        return Ok(Command::List);
    }
    if is_word(first, "show") {
        exact_len(&values, 1)?;
        return Ok(Command::Show);
    }
    if is_word(first, "add") {
        if values.len() < 3 {
            return Err("usage: nalias-lite add <name> <command> [--force]");
        }
        let allowed = vec!["--force"];
        assert(allowed@.map_values(|a: &str| a@) =~= seq!["--force"@]);
        reject_unknown(&values, 3, &allowed)?;
        let force = has_flag(&values, 3, "--force");
        assert(vs[1] == values@[1]@ && vs[2] == values@[2]@);
        return Ok(Command::Add { name: values[1].clone(), command: values[2].clone(), force });
    }
    if is_word(first, "remove") {
        if values.len() < 2 {
            return Err("usage: nalias-lite remove <name> [--yes]");
        }
        let allowed = vec!["--yes", "-y"];
        assert(allowed@.map_values(|a: &str| a@) =~= seq!["--yes"@, "-y"@]);
        reject_unknown(&values, 2, &allowed)?;
        let yes = has_flag(&values, 2, "--yes") || has_flag(&values, 2, "-y");
        assert(vs[1] == values@[1]@);
        return Ok(Command::Remove { name: values[1].clone(), yes });
    }
    Err("unknown command; run 'nalias-lite help'")
}



/// `remove` removes without asking exactly when a confirmation flag is given,
/// and `--yes` and `-y` mean the same: `remove <name>` followed by any number
/// of these flags parses to a removal of `name` with `yes` set exactly when
/// at least one flag is present.
pub proof fn law_remove_flags(name: Seq<char>, flags: Seq<Seq<char>>)
    requires
        forall|i: int| 0 <= i < flags.len() ==> #[trigger] flags[i] == "--yes"@ || flags[i] == "-y"@,
    ensures
        parse_spec(seq!["remove"@, name] + flags) == (Parsed::Remove { name, yes: flags.len() > 0 }),
{
    reveal_strlit("help");
    reveal_strlit("--help");
    reveal_strlit("-h");
    reveal_strlit("--version");
    reveal_strlit("-V");
    reveal_strlit("init");
    reveal_strlit("list");
    reveal_strlit("show");
    reveal_strlit("add");
    reveal_strlit("remove");
    reveal_strlit("--force");
    reveal_strlit("--skip-path");
    reveal_strlit("--yes");
    reveal_strlit("-y");
    let vs = seq!["remove"@, name] + flags;
    assert(vs[0] == "remove"@);
    assert("remove"@ != "--help"@) by {
        assert("remove"@[0] != "--help"@[0]);
    }
    assert("remove"@ != "help"@ && "remove"@ != "-h"@ && "remove"@ != "--version"@ && "remove"@
        != "-V"@ && "remove"@ != "init"@ && "remove"@ != "list"@ && "remove"@ != "show"@
        && "remove"@ != "add"@);
    assert(vs.skip(2) =~= flags);
    let allowed = seq!["--yes"@, "-y"@];
    assert forall|i: int| 0 <= i < flags.len() implies allowed.contains(#[trigger] flags[i]) by {
        if flags[i] == "--yes"@ {
            assert(allowed[0] == flags[i]);
        } else {
            assert(allowed[1] == flags[i]);
        }
    }
    if flags.len() > 0 {
        assert(flags[0] == "--yes"@ || flags[0] == "-y"@);
        assert(flags.contains(flags[0]));
    }
}

/// `add <name> <command>` followed by any number of `--force` flags parses to
/// adding `command` under `name`, replacing an existing alias exactly when
/// `--force` is present.
pub proof fn law_add_flags(name: Seq<char>, command: Seq<char>, flags: Seq<Seq<char>>)
    requires
        forall|i: int| 0 <= i < flags.len() ==> #[trigger] flags[i] == "--force"@,
    ensures
        parse_spec(seq!["add"@, name, command] + flags) == (Parsed::Add {
            name,
            command,
            force: flags.len() > 0,
        }),
{
    reveal_strlit("help");
    reveal_strlit("--help");
    reveal_strlit("-h");
    reveal_strlit("--version");
    reveal_strlit("-V");
    reveal_strlit("init");
    reveal_strlit("list");
    reveal_strlit("show");
    reveal_strlit("add");
    reveal_strlit("remove");
    reveal_strlit("--force");
    reveal_strlit("--skip-path");
    reveal_strlit("--yes");
    reveal_strlit("-y");
    let vs = seq!["add"@, name, command] + flags;
    assert(vs[0] == "add"@);
    assert(vs.skip(3) =~= flags);
    let allowed = seq!["--force"@];
    assert forall|i: int| 0 <= i < flags.len() implies allowed.contains(#[trigger] flags[i]) by {
        assert(allowed[0] == flags[i]);
    }
    if flags.len() > 0 {
        assert(flags.contains(flags[0]));
    }
}

/// `init` followed by any of its flags parses to an installation that
/// replaces the executable exactly when `--force` is among them and leaves
/// PATH alone exactly when `--skip-path` is among them.
pub proof fn law_init_flags(flags: Seq<Seq<char>>)
    requires
        forall|i: int| 0 <= i < flags.len() ==> #[trigger] flags[i] == "--force"@ || flags[i]
            == "--skip-path"@,
    ensures
        parse_spec(seq!["init"@] + flags) == (Parsed::Init {
            force: flags.contains("--force"@),
            skip_path: flags.contains("--skip-path"@),
        }),
{
    reveal_strlit("help");
    reveal_strlit("--help");
    reveal_strlit("-h");
    reveal_strlit("--version");
    reveal_strlit("-V");
    reveal_strlit("init");
    reveal_strlit("list");
    reveal_strlit("show");
    reveal_strlit("add");
    reveal_strlit("remove");
    reveal_strlit("--force");
    reveal_strlit("--skip-path");
    reveal_strlit("--yes");
    reveal_strlit("-y");
    let vs = seq!["init"@] + flags;
    assert(vs[0] == "init"@);
    assert("init"@ != "help"@) by {
        assert("init"@[0] != "help"@[0]);
    }
    assert("init"@ != "--help"@ && "init"@ != "-h"@ && "init"@ != "--version"@ && "init"@
        != "-V"@);
    assert(vs.skip(1) =~= flags);
    let allowed = seq!["--force"@, "--skip-path"@];
    assert forall|i: int| 0 <= i < flags.len() implies allowed.contains(#[trigger] flags[i]) by {
        if flags[i] == "--force"@ {
            assert(allowed[0] == flags[i]);
        } else {
            assert(allowed[1] == flags[i]);
        }
    }
}

} // verus!
