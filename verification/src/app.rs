//! The decisions behind each `nalias` command: what a command does to the
//! configuration, what it reports, and when it refuses.

use vstd::prelude::*;

use crate::alias::{Alias, AliasView, Shell, canonical_name, name_problem, valid_name, validate_name};
use crate::cli::{AddArgs, EditArgs};
use crate::config::{
    AliasMap, Config, alias_ok, config_valid, distinct_up_to_case, has_match,
    law_valid_config_names_distinct, lemma_config_valid_view, lemma_lookup, lemma_lookup_unique,
    matching_index, rfc3339_accepts, sorted_keys,
};
use crate::alias::law_name_check_ignores_case;
use crate::text::lemma_ascii_lower_idempotent;
use crate::error::{NaliasError, Result};
use crate::executor::{ExecutionPlan, opt_text, plan, plan_matches, stack_outcome, updated_stack};
use crate::text::{
    ascii_lower, blank, eq_ignore_ascii_case, is_blank, pad_right, push_decimal, push_padded,
    trim, trimmed, views,
};
use crate::alias::shell_name;
use crate::paths::{add_path_entry, added_entry, remove_path_entry, removed_entry};

verus! {

pub open spec fn empty_command() -> Seq<char> {
    "alias command cannot be empty"@
}

/// Checks made on `add` before the configuration is opened.
pub fn check_add(args: &AddArgs) -> (r: Result<()>)
    ensures
        !valid_name(args.name@) ==> (r matches Err(NaliasError::InvalidAliasName { name: n, reason: m })
            && n@ == args.name@ && name_problem(args.name@) == Some(m@)),
        valid_name(args.name@) && is_blank(args.command@) ==> (r matches Err(NaliasError::Config(m))
            && m@ == empty_command()),
        valid_name(args.name@) && !is_blank(args.command@) ==> r is Ok,
{
    validate_name(args.name.as_str())?;
    if blank(args.command.as_str()) {
        return Err(NaliasError::Config("alias command cannot be empty".to_owned()));
    }
    Ok(())
}

/// The alias that `add` stores.
pub open spec fn added_alias(
    command: Seq<char>,
    description: Option<Seq<char>>,
    shell: Shell,
    created_at: Seq<char>,
    now: Seq<char>,
) -> AliasView {
    AliasView { command, description, shell, enabled: true, created_at, updated_at: now }
}

/// The aliases after storing `v` under the canonical form of `name`, in
/// place of the alias whose name matches `name` up to ASCII case, if any.
pub open spec fn added_view(before: AliasMap, name: Seq<char>, v: AliasView) -> Map<Seq<char>, AliasView> {
    let p = matching_index(before.keys(), name);
    (if p < before.keys().len() {
        before.view().remove(before.keys()[p])
    } else {
        before.view()
    }).insert(ascii_lower(name), v)
}

/// Stores the alias described by `args` under its canonical name; an alias
/// whose name matches up to ASCII case is replaced only with `force`, and its
/// creation time is kept.
pub fn add_alias(config: &mut Config, args: AddArgs, now: String) -> (r: Result<String>)
    ensures
        ({
            let keys = old(config).aliases.keys();
            let before = old(config).aliases.view();
            let p = matching_index(keys, args.name@);
            let found = p < keys.len();
            &&& 0 <= p <= keys.len()
            &&& final(config).version == old(config).version
            &&& if found && !args.force {
                &&& r matches Err(NaliasError::AliasExists(n)) && n@ == args.name@
                &&& final(config).aliases.view() == before
            } else {
                &&& r matches Ok(k) && k@ == ascii_lower(args.name@)
                &&& final(config).aliases.view() == added_view(
                    old(config).aliases,
                    args.name@,
                    added_alias(
                        args.command@,
                        crate::alias::opt_view(args.description),
                        args.shell,
                        if found {
                            before[keys[p]].created_at
                        } else {
                            now@
                        },
                        now@,
                    ),
                )
            }
        }),
{
    proof {
        use_type_invariant(&config.aliases);
    }
    let ghost keys = config.aliases.keys();
    let existing: Option<String> = match config.find_key(args.name.as_str()) {
        Some(k) => Some(k.clone()),
        None => None,
    };
    if existing.is_some() && !args.force {
        return Err(NaliasError::AliasExists(args.name));
    }
    let created_at = match &existing {
        Some(key) => {
            proof {
                config.aliases.lemma_view_at(matching_index(keys, args.name@));
            }
            match config.aliases.get(key.as_str()) {
                Some(alias) => alias.created_at.clone(),
                None => now.clone(),
            }
        },
        None => now.clone(),
    };
    if let Some(key) = existing {
        config.aliases.remove(key.as_str());
    }
    let name = canonical_name(args.name.as_str());
    let alias = Alias {
        command: args.command,
        description: args.description,
        shell: args.shell,
        enabled: true,
        created_at,
        updated_at: now,
    };
    config.aliases.insert(name.clone(), alias);
    Ok(name)
}

pub open spec fn no_change_option() -> Seq<char> {
    "edit requires at least one change option"@
}

/// Whether `edit` was given nothing to change.
pub open spec fn edit_is_empty(args: EditArgs) -> bool {
    args.command is None && args.description is None && args.shell is None && !args.enable
        && !args.disable
}

/// Checks made on `edit` before the configuration is opened.
pub fn check_edit(args: &EditArgs) -> (r: Result<()>)
    ensures
        !valid_name(args.name@) ==> (r matches Err(NaliasError::InvalidAliasName { name: n, reason: m })
            && n@ == args.name@ && name_problem(args.name@) == Some(m@)),
        valid_name(args.name@) && edit_is_empty(*args) ==> (r matches Err(NaliasError::Config(m))
            && m@ == no_change_option()),
        valid_name(args.name@) && !edit_is_empty(*args) && (args.command matches Some(c)
            && is_blank(c@)) ==> (r matches Err(NaliasError::Config(m)) && m@ == empty_command()),
        valid_name(args.name@) && !edit_is_empty(*args) && !(args.command matches Some(c)
            && is_blank(c@)) ==> r is Ok,
{
    validate_name(args.name.as_str())?;
    if args.command.is_none() && args.description.is_none() && args.shell.is_none() && !args.enable
        && !args.disable {
        return Err(NaliasError::Config("edit requires at least one change option".to_owned()));
    }
    if let Some(c) = &args.command {
        if blank(c.as_str()) {
            return Err(NaliasError::Config("alias command cannot be empty".to_owned()));
        }
    }
    Ok(())
}

/// The alias `a` after `edit` with `args` at time `now`.
pub open spec fn edited(a: AliasView, args: EditArgs, now: Seq<char>) -> AliasView {
    AliasView {
        command: match args.command {
            Some(c) => c@,
            None => a.command,
        },
        description: match args.description {
            Some(d) => Some(d@),
            None => a.description,
        },
        shell: match args.shell {
            Some(s) => s,
            None => a.shell,
        },
        enabled: if args.enable {
            true
        } else if args.disable {
            false
        } else {
            a.enabled
        },
        created_at: a.created_at,
        updated_at: now,
    }
}

/// Changes the alias matching `args.name` up to ASCII case.
pub fn edit_alias(config: &mut Config, args: EditArgs, now: String) -> (r: Result<String>)
    ensures
        ({
            let keys = old(config).aliases.keys();
            let before = old(config).aliases.view();
            let p = matching_index(keys, args.name@);
            &&& 0 <= p <= keys.len()
            &&& final(config).version == old(config).version
            &&& if p < keys.len() {
                &&& r matches Ok(k) && k@ == keys[p]
                &&& final(config).aliases.view() == before.insert(
                    keys[p],
                    edited(before[keys[p]], args, now@),
                )
            } else {
                &&& r matches Err(NaliasError::AliasNotFound(n)) && n@ == args.name@
                &&& final(config).aliases.view() == before
            }
        }),
{
    proof {
        use_type_invariant(&config.aliases);
    }
    let ghost keys = config.aliases.keys();
    let ghost before = config.aliases.view();
    let key = match config.find_key(args.name.as_str()) {
        Some(k) => k.clone(),
        None => return Err(NaliasError::AliasNotFound(args.name)),
    };
    proof {
        config.aliases.lemma_view_at(matching_index(keys, args.name@));
    }
    let mut alias = match config.aliases.remove(key.as_str()) {
        Some(a) => a,
        None => return Err(NaliasError::AliasNotFound(args.name)),
    };
    let ghost a0 = alias@;
    if let Some(command) = args.command {
        alias.command = command;
    }
    if let Some(description) = args.description {
        alias.description = Some(description);
    }
    if let Some(shell) = args.shell {
        alias.shell = shell;
    }
    if args.enable {
        alias.enabled = true;
    } else if args.disable {
        alias.enabled = false;
    }
    alias.updated_at = now;
    assert(alias@ == edited(a0, args, now@));
    config.aliases.insert(key.clone(), alias);
    assert(config.aliases.view() =~= before.insert(key@, edited(a0, args, now@)));
    Ok(key)
}

/// What `rename` did.
#[derive(Debug, PartialEq, Eq)]
pub enum RenameOutcome {
    /// The alias already had the requested name.
    Unchanged(String),
    Renamed { old_key: String, new_key: String },
}

/// Moves the alias matching `old_name` to the canonical form of `new_name`;
/// refuses when another alias already has that name.
pub fn rename_alias(config: &mut Config, old_name: &str, new_name: &str, now: String) -> (r: Result<
    RenameOutcome,
>)
    ensures
        ({
            let keys = old(config).aliases.keys();
            let before = old(config).aliases.view();
            let p = matching_index(keys, old_name@);
            let nk = ascii_lower(new_name@);
            let q = matching_index(keys, nk);
            &&& 0 <= p <= keys.len()
            &&& final(config).version == old(config).version
            &&& if p >= keys.len() {
                &&& r matches Err(NaliasError::AliasNotFound(n)) && n@ == old_name@
                &&& final(config).aliases.view() == before
            } else if keys[p] != nk && q < keys.len() {
                &&& r matches Err(NaliasError::AliasExists(n)) && n@ == new_name@
                &&& final(config).aliases.view() == before
            } else if keys[p] == nk {
                &&& r matches Ok(RenameOutcome::Unchanged(k)) && k@ == nk
                &&& final(config).aliases.view() == before
            } else {
                &&& r matches Ok(RenameOutcome::Renamed { old_key, new_key }) && old_key@ == keys[p]
                    && new_key@ == nk
                &&& final(config).aliases.view() == before.remove(keys[p]).insert(
                    nk,
                    AliasView { updated_at: now@, ..before[keys[p]] },
                )
            }
        }),
{
    proof {
        use_type_invariant(&config.aliases);
    }
    let ghost keys = config.aliases.keys();
    let ghost before = config.aliases.view();
    let old_key = match config.find_key(old_name) {
        Some(k) => k.clone(),
        None => return Err(NaliasError::AliasNotFound(old_name.to_owned())),
    };
    let new_key = canonical_name(new_name);
    if old_key != new_key && config.find_key(new_key.as_str()).is_some() {
        return Err(NaliasError::AliasExists(new_name.to_owned()));
    }
    if old_key == new_key {
        return Ok(RenameOutcome::Unchanged(new_key));
    }
    proof {
        config.aliases.lemma_view_at(matching_index(keys, old_name@));
    }
    let mut alias = match config.aliases.remove(old_key.as_str()) {
        Some(a) => a,
        None => return Err(NaliasError::AliasNotFound(old_name.to_owned())),
    };
    let ghost a0 = alias@;
    alias.updated_at = now;
    config.aliases.insert(new_key.clone(), alias);
    assert(config.aliases.view() =~= before.remove(old_key@).insert(
        new_key@,
        AliasView { updated_at: now@, ..a0 },
    ));
    Ok(RenameOutcome::Renamed { old_key, new_key })
}

/// The stored name matching `name` up to ASCII case, for `remove`.
pub fn existing_key(config: &Config, name: &str) -> (r: Result<String>)
    ensures
        ({
            let keys = config.aliases.keys();
            let p = matching_index(keys, name@);
            &&& 0 <= p <= keys.len()
            &&& if p < keys.len() {
                r matches Ok(k) && k@ == keys[p]
            } else {
                r matches Err(NaliasError::AliasNotFound(n)) && n@ == name@
            }
        }),
{
    match config.find_key(name) {
        Some(k) => Ok(k.clone()),
        None => Err(NaliasError::AliasNotFound(name.to_owned())),
    }
}

/// Everything `run` needs to start an alias.
#[derive(Debug)]
pub struct RunPlan {
    /// The stored name of the alias.
    pub key: String,
    pub shell: Shell,
    /// The run stack to hand to the child process.
    pub stack: String,
    pub plan: ExecutionPlan,
}

/// Resolves `name` in `config` and plans its run under the run stack
/// `current_stack`: unknown and disabled aliases are refused, as is recursion.
pub fn prepare_run(
    config: &Config,
    name: &str,
    current_stack: Option<&str>,
    arguments: &[String],
) -> (r: Result<RunPlan>)
    ensures
        ({
            let keys = config.aliases.keys();
            let p = matching_index(keys, name@);
            &&& 0 <= p <= keys.len()
            &&& if p >= keys.len() {
                r matches Err(NaliasError::AliasNotFound(n)) && n@ == name@
            } else {
                let a = config.aliases.values()[p];
                if !a.enabled {
                    r matches Err(NaliasError::AliasDisabled(n)) && n@ == keys[p]
                } else {
                    match stack_outcome(keys[p], opt_text(current_stack)) {
                        Err(m) => r matches Err(NaliasError::Recursion(t)) && t@ == m,
                        Ok(st) => match r {
                            Ok(rp) => rp.key@ == keys[p] && rp.shell == a.shell && rp.stack@ == st
                                && plan_matches(a.shell, a.command, arguments@, Ok(rp.plan)),
                            Err(e) => plan_matches(a.shell, a.command, arguments@, Err(e)),
                        },
                    }
                }
            }
        }),
{
    let (key, alias) = match config.get(name) {
        Some(found) => found,
        None => return Err(NaliasError::AliasNotFound(name.to_owned())),
    };
    if !alias.enabled {
        return Err(NaliasError::AliasDisabled(key.to_owned()));
    }
    let stack = updated_stack(key, current_stack)?;
    let planned = plan(alias, arguments)?;
    Ok(RunPlan { key: key.to_owned(), shell: alias.shell, stack, plan: planned })
}


/// The length of `s` in UTF-8 bytes, as `str::len` reports it.
pub open spec fn byte_len(s: Seq<char>) -> nat {
    (vstd::utf8::encode_utf8(s).len() as usize) as nat
}

/// The width of the NAME column: the longest name in bytes, at least 4.
pub open spec fn name_width(keys: Seq<Seq<char>>) -> nat
    decreases keys.len(),
{
    if keys.len() == 0 {
        4
    } else {
        let w = name_width(keys.drop_last());
        if byte_len(keys.last()) > w {
            byte_len(keys.last())
        } else {
            w
        }
    }
}

pub open spec fn list_header(width: nat) -> Seq<char> {
    pad_right("NAME"@, width) + "  "@ + pad_right("SHELL"@, 10) + "  COMMAND"@
}

/// A row of the `list` table. The shell is written as it is: `Shell`'s text
/// takes no padding, so only the header's SHELL column is padded.
pub open spec fn list_row(name: Seq<char>, a: AliasView, width: nat) -> Seq<char> {
    pad_right(name, width) + "  "@ + shell_name(a.shell) + "  "@ + a.command + if a.enabled {
        Seq::<char>::empty()
    } else {
        " [disabled]"@
    }
}

/// The lines of the `list` table: a header and one row per alias in name
/// order, or a notice when there are no aliases.
pub open spec fn list_text(keys: Seq<Seq<char>>, values: Seq<AliasView>) -> Seq<Seq<char>> {
    if keys.len() == 0 {
        seq!["No aliases defined."@]
    } else {
        seq![list_header(name_width(keys))] + Seq::new(
            keys.len(),
            |i: int| list_row(keys[i], values[i], name_width(keys)),
        )
    }
}

/// The lines printed by `list` without `--json`.
pub fn list_lines(config: &Config) -> (r: Vec<String>)
    ensures
        views(r@) == list_text(config.aliases.keys(), config.aliases.values()),
{
    let ghost keys = config.aliases.keys();
    let ghost values = config.aliases.values();
    proof {
        config.aliases.lemma_lengths();
    }
    let mut r: Vec<String> = Vec::new();
    if config.aliases.is_empty() {
        r.push("No aliases defined.".to_owned());
        assert(views(r@) =~= list_text(keys, values));
        return r;
    }
    let n = config.aliases.len();
    let mut width: usize = 4;
    let mut i: usize = 0;
    assert(keys.take(0) =~= Seq::<Seq<char>>::empty());
    while i < n
        invariant
            i <= n,
            n == keys.len(),
            keys == config.aliases.keys(),
            width as nat == name_width(keys.take(i as int)),
        decreases n - i,
    {
        let len = config.aliases.key_at(i).as_str().len();
        assert(keys.take(i + 1).drop_last() =~= keys.take(i as int));
        assert(keys.take(i + 1).last() == keys[i as int]);
        assert(len as nat == byte_len(keys[i as int]));
        if len > width {
            width = len;
        }
        i = i + 1;
    }
    assert(keys.take(n as int) =~= keys);
    let mut header = String::new();
    push_padded(&mut header, "NAME", width);
    header.append("  ");
    push_padded(&mut header, "SHELL", 10);
    header.append("  COMMAND");
    r.push(header);
    let mut j: usize = 0;
    while j < n
        invariant
            j <= n,
            n == keys.len(),
            keys == config.aliases.keys(),
            values == config.aliases.values(),
            values.len() == keys.len(),
            width as nat == name_width(keys),
            views(r@) == seq![list_header(name_width(keys))] + Seq::new(
                j as nat,
                |k: int| list_row(keys[k], values[k], name_width(keys)),
            ),
        decreases n - j,
    {
        let name = config.aliases.key_at(j);
        let alias = config.aliases.value_at(j);
        let mut row = String::new();
        push_padded(&mut row, name.as_str(), width);
        row.append("  ");
        row.append(alias.shell.as_str());
        row.append("  ");
        row.append(alias.command.as_str());
        if !alias.enabled {
            row.append(" [disabled]");
        }
        let ghost before = views(r@);
        proof {
            let a = values[j as int];
            assert(name@ == keys[j as int]);
            assert(alias@ == a);
            let tail = if a.enabled {
                Seq::<char>::empty()
            } else {
                " [disabled]"@
            };
            assert(row@ =~= pad_right(keys[j as int], name_width(keys)) + "  "@ + shell_name(a.shell)
                + "  "@ + a.command + tail);
        }
        r.push(row);
        assert(views(r@) =~= before.push(list_row(keys[j as int], values[j as int], name_width(keys))));
        assert(views(r@) =~= seq![list_header(name_width(keys))] + Seq::new(
            (j + 1) as nat,
            |k: int| list_row(keys[k], values[k], name_width(keys)),
        ));
        j = j + 1;
    }
    r
}

pub open spec fn bool_text(b: bool) -> Seq<char> {
    if b {
        "true"@
    } else {
        "false"@
    }
}

/// The lines printed by `show` without `--json`.
pub open spec fn show_text(name: Seq<char>, a: AliasView) -> Seq<Seq<char>> {
    seq![
        "Name:        "@ + name,
        "Command:     "@ + a.command,
        "Description: "@ + match a.description {
            Some(d) => d,
            None => Seq::<char>::empty(),
        },
        "Shell:       "@ + shell_name(a.shell),
        "Enabled:     "@ + bool_text(a.enabled),
        "Created:     "@ + a.created_at,
        "Updated:     "@ + a.updated_at,
    ]
}

pub fn show_lines(name: &str, alias: &Alias) -> (r: Vec<String>)
    ensures
        views(r@) == show_text(name@, alias@),
{
    let mut l1 = "Name:        ".to_owned();
    l1.append(name);
    let mut l2 = "Command:     ".to_owned();
    l2.append(alias.command.as_str());
    let mut l3 = "Description: ".to_owned();
    match &alias.description {
        Some(d) => l3.append(d.as_str()),
        None => {
            assert(l3@ =~= "Description: "@ + Seq::<char>::empty());
        },
    }
    let mut l4 = "Shell:       ".to_owned();
    l4.append(alias.shell.as_str());
    let mut l5 = "Enabled:     ".to_owned();
    if alias.enabled {
        l5.append("true");
    } else {
        l5.append("false");
    }
    let mut l6 = "Created:     ".to_owned();
    l6.append(alias.created_at.as_str());
    let mut l7 = "Updated:     ".to_owned();
    l7.append(alias.updated_at.as_str());
    let r = vec![l1, l2, l3, l4, l5, l6, l7];
    assert(views(r@) =~= show_text(name@, alias@));
    r
}

/// How a generated wrapper compares with what its alias needs.
#[derive(Clone, Copy, Debug, PartialEq, Eq, Structural)]
pub enum WrapperState {
    Missing,
    Mismatched,
    Current,
}

/// What `repair` did to the wrappers.
#[derive(Debug, Default, Eq, PartialEq)]
pub struct RepairSummary {
    pub created: usize,
    pub repaired: usize,
    pub unchanged: usize,
    pub removed: usize,
}

/// How many of `states` are `x`.
pub open spec fn count_state(states: Seq<WrapperState>, x: WrapperState) -> nat
    decreases states.len(),
{
    if states.len() == 0 {
        0
    } else {
        count_state(states.drop_last(), x) + if states.last() == x {
            1nat
        } else {
            0nat
        }
    }
}

proof fn lemma_count_bound(states: Seq<WrapperState>, x: WrapperState)
    ensures
        count_state(states, x) <= states.len(),
    decreases states.len(),
{
    if states.len() > 0 {
        lemma_count_bound(states.drop_last(), x);
    }
}

/// Whether a wrapper in this state gets written by `repair`.
pub fn needs_write(state: WrapperState) -> (r: bool)
    ensures
        r == (state != WrapperState::Current),
{
    match state {
        WrapperState::Current => false,
        _ => true,
    }
}

impl RepairSummary {
    /// The counts for the aliases' wrappers found in `states` (a missing
    /// wrapper is created, a mismatched one repaired) and `removed` stale ones.
    pub fn from_states(states: &Vec<WrapperState>, removed: usize) -> (r: RepairSummary)
        ensures
            r.created == count_state(states@, WrapperState::Missing),
            r.repaired == count_state(states@, WrapperState::Mismatched),
            r.unchanged == count_state(states@, WrapperState::Current),
            r.removed == removed,
    {
        let mut created: usize = 0;
        let mut repaired: usize = 0;
        let mut unchanged: usize = 0;
        let mut i: usize = 0;
        assert(states@.take(0) =~= Seq::<WrapperState>::empty());
        while i < states.len()
            invariant
                i <= states@.len(),
                created == count_state(states@.take(i as int), WrapperState::Missing),
                repaired == count_state(states@.take(i as int), WrapperState::Mismatched),
                unchanged == count_state(states@.take(i as int), WrapperState::Current),
            decreases states@.len() - i,
        {
            proof {
                let t = states@.take(i + 1);
                assert(t.drop_last() =~= states@.take(i as int));
                lemma_count_bound(states@.take(i as int), WrapperState::Missing);
                lemma_count_bound(states@.take(i as int), WrapperState::Mismatched);
                lemma_count_bound(states@.take(i as int), WrapperState::Current);
            }
            match states[i] {
                WrapperState::Missing => created = created + 1,
                WrapperState::Mismatched => repaired = repaired + 1,
                WrapperState::Current => unchanged = unchanged + 1,
            }
            i = i + 1;
        }
        assert(states@.take(states@.len() as int) =~= states@);
        RepairSummary { created, repaired, unchanged, removed }
    }

    /// The line that `repair` prints.
    pub fn summary_line(&self) -> (r: String)
        ensures
            r@ == "Wrappers: "@ + crate::text::decimal(self.created as nat) + " created, "@
                + crate::text::decimal(self.repaired as nat) + " repaired, "@
                + crate::text::decimal(self.unchanged as nat) + " unchanged, "@
                + crate::text::decimal(self.removed as nat) + " removed."@,
    {
        let mut r = "Wrappers: ".to_owned();
        push_decimal(&mut r, self.created);
        r.append(" created, ");
        push_decimal(&mut r, self.repaired);
        r.append(" repaired, ");
        push_decimal(&mut r, self.unchanged);
        r.append(" unchanged, ");
        push_decimal(&mut r, self.removed);
        r.append(" removed.");
        r
    }
}

/// Whether a generated wrapper named `stem` belongs to no alias.
pub open spec fn stale(keys: Seq<Seq<char>>, stem: Seq<char>) -> bool {
    forall|i: int| 0 <= i < keys.len() ==> ascii_lower(#[trigger] keys[i]) != ascii_lower(stem)
}

pub fn is_stale(config: &Config, stem: &str) -> (r: bool)
    ensures
        r == stale(config.aliases.keys(), stem@),
{
    let ghost keys = config.aliases.keys();
    let mut i: usize = 0;
    while i < config.aliases.len()
        invariant
            i <= keys.len(),
            keys == config.aliases.keys(),
            forall|j: int| 0 <= j < i ==> ascii_lower(#[trigger] keys[j]) != ascii_lower(stem@),
        decreases keys.len() - i,
    {
        if eq_ignore_ascii_case(config.aliases.key_at(i).as_str(), stem) {
            return false;
        }
        i = i + 1;
    }
    true
}

/// Whether a file extension marks a CMD script.
pub fn is_cmd_extension(extension: &str) -> (r: bool)
    ensures
        r == (ascii_lower(extension@) == "cmd"@),
{
    proof {
        reveal_strlit("cmd");
        assert(ascii_lower("cmd"@) =~= "cmd"@);
    }
    eq_ignore_ascii_case(extension, "cmd")
}

/// One line of the `doctor` report.
pub open spec fn report_text(ok: bool, label: Seq<char>, details: Seq<char>) -> Seq<char> {
    let status = if ok {
        "OK  "@
    } else {
        "FAIL"@
    };
    if details.len() == 0 {
        status + " "@ + label
    } else {
        status + " "@ + label + ": "@ + details
    }
}

pub fn report_line(ok: bool, label: &str, details: &str) -> (r: String)
    ensures
        r@ == report_text(ok, label@, details@),
{
    let mut r = if ok {
        "OK  ".to_owned()
    } else {
        "FAIL".to_owned()
    };
    r.append(" ");
    r.append(label);
    if !details.is_empty() {
        r.append(": ");
        r.append(details);
    }
    r
}

/// Problems that `doctor` counts for the wrappers: each alias whose wrapper is
/// missing or differs, and each generated wrapper that belongs to no alias.
pub fn wrapper_problems(states: &Vec<WrapperState>, stale: usize) -> (r: usize)
    requires
        states@.len() + stale <= usize::MAX,
    ensures
        r == count_state(states@, WrapperState::Missing) + count_state(
            states@,
            WrapperState::Mismatched,
        ) + stale,
{
    let mut n: usize = 0;
    let mut i: usize = 0;
    assert(states@.take(0) =~= Seq::<WrapperState>::empty());
    while i < states.len()
        invariant
            i <= states@.len(),
            states@.len() + stale <= usize::MAX,
            n == count_state(states@.take(i as int), WrapperState::Missing) + count_state(
                states@.take(i as int),
                WrapperState::Mismatched,
            ),
            n <= i,
        decreases states@.len() - i,
    {
        proof {
            assert(states@.take(i + 1).drop_last() =~= states@.take(i as int));
        }
        if needs_write(states[i]) {
            n = n + 1;
        }
        i = i + 1;
    }
    assert(states@.take(states@.len() as int) =~= states@);
    n + stale
}

/// What the checks of `doctor` found. A check that was not made is `None`:
/// the user PATH when an override root is set, the wrappers when the
/// configuration or the wrapper directory is unusable, and the build
/// comparison when no executable is installed.
#[derive(Clone, Copy, Debug, PartialEq, Eq)]
pub struct DoctorFindings {
    pub root_ok: bool,
    pub executable_ok: bool,
    pub bin_ok: bool,
    pub config_ok: bool,
    /// Whether the wrapper directory is on the user PATH (false when the PATH
    /// could not be read).
    pub path_ok: Option<bool>,
    pub wrapper_problems: Option<usize>,
    /// Whether the installed executable equals this build (false when the
    /// comparison failed).
    pub executable_matches: Option<bool>,
}

pub open spec fn failed(ok: bool) -> nat {
    if ok {
        0
    } else {
        1
    }
}

pub open spec fn failed_check(check: Option<bool>) -> nat {
    if check == Some(false) {
        1
    } else {
        0
    }
}

/// The number of important problems in `f`.
pub open spec fn problem_count(f: DoctorFindings) -> nat {
    failed(f.root_ok) + failed(f.executable_ok) + failed(f.bin_ok) + failed(f.config_ok)
        + failed_check(f.path_ok) + match f.wrapper_problems {
        Some(n) => n as nat,
        None => 0nat,
    } + failed_check(f.executable_matches)
}

impl DoctorFindings {
    /// The number of important problems found.
    pub fn problems(&self) -> (r: usize)
        requires
            problem_count(*self) <= usize::MAX,
        ensures
            r == problem_count(*self),
    {
        let mut n: usize = 0;
        if !self.root_ok {
            n = n + 1;
        }
        if !self.executable_ok {
            n = n + 1;
        }
        if !self.bin_ok {
            n = n + 1;
        }
        if !self.config_ok {
            n = n + 1;
        }
        if self.path_ok == Some(false) {
            n = n + 1;
        }
        if let Some(w) = self.wrapper_problems {
            n = n + w;
        }
        if self.executable_matches == Some(false) {
            n = n + 1;
        }
        n
    }
}

/// The closing line of `doctor` and its exit code: 0 without problems, 6 otherwise.
pub fn doctor_conclusion(problems: usize) -> (r: (String, i32))
    ensures
        problems == 0 ==> r.0@ == "Doctor found no important problems."@ && r.1 == 0,
        problems > 0 ==> r.0@ == "Doctor found "@ + crate::text::decimal(problems as nat)
            + " important problem(s)."@ && r.1 == 6,
{
    if problems == 0 {
        ("Doctor found no important problems.".to_owned(), 0)
    } else {
        let mut m = "Doctor found ".to_owned();
        push_decimal(&mut m, problems);
        m.append(" important problem(s).");
        (m, 6)
    }
}

/// What `init` does with the executable.
#[derive(Clone, Copy, Debug, PartialEq, Eq, Structural)]
pub enum InstallStep {
    /// This process already runs from the install location.
    AlreadyRunning,
    /// The installed executable is byte-for-byte this build.
    AlreadyMatches,
    /// Copy this build to the install location.
    Install,
    /// Keep the executable that is installed.
    KeepExisting,
}

/// Chooses the executable step of `init`; `identical` is whether the installed
/// file equals this build, which is compared only for a forced reinstall over
/// an existing file.
pub fn install_step(
    running_from_install: bool,
    installed_exists: bool,
    force: bool,
    identical: Option<bool>,
) -> (r: InstallStep)
    requires
        !running_from_install && installed_exists && force ==> identical is Some,
    ensures
        running_from_install ==> r == InstallStep::AlreadyRunning,
        !running_from_install && installed_exists && force && identical == Some(true) ==> r
            == InstallStep::AlreadyMatches,
        !running_from_install && !(installed_exists && force && identical == Some(true)) && (
        !installed_exists || force) ==> r == InstallStep::Install,
        !running_from_install && installed_exists && !force ==> r == InstallStep::KeepExisting,
{
    if running_from_install {
        InstallStep::AlreadyRunning
    } else if installed_exists && force && identical == Some(true) {
        InstallStep::AlreadyMatches
    } else if !installed_exists || force {
        InstallStep::Install
    } else {
        InstallStep::KeepExisting
    }
}

/// The user PATH after adding `bin`, or `None` when it already holds it.
pub fn path_with_bin(old: &str, bin: &str) -> (r: Option<String>)
    ensures
        match r {
            Some(new) => new@ == added_entry(old@, bin@) && new@ != old@,
            None => added_entry(old@, bin@) == old@,
        },
{
    let new = add_path_entry(old, bin);
    if crate::text::str_eq(new.as_str(), old) {
        None
    } else {
        Some(new)
    }
}

/// The user PATH after removing `bin`, or `None` when nothing changes.
pub fn path_without_bin(old: &str, bin: &str) -> (r: Option<String>)
    ensures
        match r {
            Some(new) => new@ == removed_entry(old@, bin@) && new@ != old@,
            None => removed_entry(old@, bin@) == old@,
        },
{
    let new = remove_path_entry(old, bin);
    if crate::text::str_eq(new.as_str(), old) {
        None
    } else {
        Some(new)
    }
}

/// Whether a confirmation answer accepts: `y` or `yes` in any ASCII case,
/// surrounding white space ignored.
pub open spec fn affirmative(answer: Seq<char>) -> bool {
    ascii_lower(trim(answer)) == "y"@ || ascii_lower(trim(answer)) == "yes"@
}

pub fn is_affirmative(answer: &str) -> (r: bool)
    ensures
        r == affirmative(answer@),
{
    let t = trimmed(answer);
    let lower = crate::text::to_ascii_lower(t.as_str());
    crate::text::str_eq(lower.as_str(), "y") || crate::text::str_eq(lower.as_str(), "yes")
}


/// Storing `v` under `name` removes every name equal to `name` up to case
/// (when the names were distinct up to case) before adding the canonical one.
proof fn lemma_added_view_base(before: AliasMap, name: Seq<char>)
    requires
        sorted_keys(before.keys()),
        distinct_up_to_case(before.view()),
    ensures
        ({
            let p = matching_index(before.keys(), name);
            let base = if p < before.keys().len() {
                before.view().remove(before.keys()[p])
            } else {
                before.view()
            };
            &&& !has_match(base, name)
            &&& distinct_up_to_case(base)
        }),
{
    let keys = before.keys();
    let p = matching_index(keys, name);
    lemma_lookup(before, name);
    let base = if p < keys.len() {
        before.view().remove(keys[p])
    } else {
        before.view()
    };
    if has_match(base, name) {
        let k = choose|k: Seq<char>| base.contains_key(k) && ascii_lower(k) == ascii_lower(name);
        if p < keys.len() {
            assert(before.view().contains_key(k) && before.view().contains_key(keys[p]));
        } else {
            assert(has_match(before.view(), name));
        }
    }
    assert forall|k1: Seq<char>, k2: Seq<char>|
        base.contains_key(k1) && base.contains_key(k2) && k1 != k2 implies ascii_lower(k1)
        != ascii_lower(k2) by {
        assert(before.view().contains_key(k1) && before.view().contains_key(k2));
    }
}

/// Adding an alias keeps the names distinct up to ASCII case.
pub proof fn law_add_keeps_names_distinct(before: AliasMap, name: Seq<char>, v: AliasView)
    requires
        sorted_keys(before.keys()),
        distinct_up_to_case(before.view()),
    ensures
        distinct_up_to_case(added_view(before, name, v)),
{
    lemma_added_view_base(before, name);
    lemma_ascii_lower_idempotent(name);
    let after = added_view(before, name, v);
    let c = ascii_lower(name);
    assert forall|k1: Seq<char>, k2: Seq<char>|
        after.contains_key(k1) && after.contains_key(k2) && k1 != k2 implies ascii_lower(k1)
        != ascii_lower(k2) by {
        if k1 == c {
            assert(ascii_lower(k2) != ascii_lower(name));
        } else if k2 == c {
            assert(ascii_lower(k1) != ascii_lower(name));
        }
    }
}

/// What a read gives back of a write: after `add`, looking the name up in any
/// ASCII case finds the alias just stored under its canonical name.
pub proof fn law_lookup_after_add(before: AliasMap, after: AliasMap, name: Seq<char>, v: AliasView)
    requires
        sorted_keys(before.keys()),
        sorted_keys(after.keys()),
        distinct_up_to_case(before.view()),
        after.view() == added_view(before, name, v),
    ensures
        matching_index(after.keys(), name) < after.keys().len(),
        after.keys()[matching_index(after.keys(), name)] == ascii_lower(name),
        after.view()[ascii_lower(name)] == v,
{
    law_add_keeps_names_distinct(before, name, v);
    lemma_ascii_lower_idempotent(name);
    lemma_lookup_unique(after, name, ascii_lower(name));
}

/// After `remove`, the name is no longer found in any ASCII case.
pub proof fn law_lookup_after_remove(before: AliasMap, after: AliasMap, name: Seq<char>)
    requires
        sorted_keys(before.keys()),
        sorted_keys(after.keys()),
        distinct_up_to_case(before.view()),
        matching_index(before.keys(), name) < before.keys().len(),
        after.view() == before.view().remove(before.keys()[matching_index(before.keys(), name)]),
    ensures
        matching_index(after.keys(), name) == after.keys().len(),
{
    lemma_added_view_base(before, name);
    lemma_lookup(after, name);
    lemma_matching_index_bounds(after, name);
}

proof fn lemma_matching_index_bounds(m: AliasMap, name: Seq<char>)
    ensures
        0 <= matching_index(m.keys(), name) <= m.keys().len(),
{
    crate::config::lemma_matching_index_props(m.keys(), name);
}

/// After a rename, the new name finds the alias (with its command and
/// creation time unchanged), the old name finds nothing, and the names stay
/// distinct up to case.
pub proof fn law_lookup_after_rename(
    before: AliasMap,
    after: AliasMap,
    old_name: Seq<char>,
    new_name: Seq<char>,
    now: Seq<char>,
)
    requires
        sorted_keys(before.keys()),
        sorted_keys(after.keys()),
        distinct_up_to_case(before.view()),
        matching_index(before.keys(), old_name) < before.keys().len(),
        matching_index(before.keys(), ascii_lower(new_name)) == before.keys().len(),
        after.view() == before.view().remove(
            before.keys()[matching_index(before.keys(), old_name)],
        ).insert(
            ascii_lower(new_name),
            AliasView {
                updated_at: now,
                ..before.view()[before.keys()[matching_index(before.keys(), old_name)]]
            },
        ),
    ensures
        distinct_up_to_case(after.view()),
        matching_index(after.keys(), new_name) < after.keys().len(),
        after.keys()[matching_index(after.keys(), new_name)] == ascii_lower(new_name),
        after.view()[ascii_lower(new_name)].command == before.view()[before.keys()[matching_index(
            before.keys(),
            old_name,
        )]].command,
        after.view()[ascii_lower(new_name)].created_at == before.view()[before.keys()[matching_index(
            before.keys(),
            old_name,
        )]].created_at,
        matching_index(after.keys(), old_name) == after.keys().len(),
{
    let keys = before.keys();
    let p = matching_index(keys, old_name);
    let nk = ascii_lower(new_name);
    lemma_ascii_lower_idempotent(new_name);
    lemma_lookup(before, old_name);
    lemma_lookup(before, nk);
    let base = before.view().remove(keys[p]);
    // No remaining name matches either the old or the new name.
    assert(!has_match(base, old_name)) by {
        if has_match(base, old_name) {
            let k = choose|k: Seq<char>| base.contains_key(k) && ascii_lower(k) == ascii_lower(old_name);
            assert(before.view().contains_key(k) && before.view().contains_key(keys[p]));
        }
    }
    assert(!has_match(before.view(), nk));
    assert(ascii_lower(keys[p]) != nk) by {
        assert(before.view().contains_key(keys[p]));
    }
    let v = AliasView { updated_at: now, ..before.view()[keys[p]] };
    assert(after.view() == base.insert(nk, v));
    assert forall|k1: Seq<char>, k2: Seq<char>|
        after.view().contains_key(k1) && after.view().contains_key(k2) && k1 != k2 implies ascii_lower(k1)
        != ascii_lower(k2) by {
        if k1 == nk {
            assert(before.view().contains_key(k2));
            assert(ascii_lower(k2) != nk);
        } else if k2 == nk {
            assert(before.view().contains_key(k1));
            assert(ascii_lower(k1) != nk);
        } else {
            assert(before.view().contains_key(k1) && before.view().contains_key(k2));
        }
    }
    lemma_lookup_unique(after, new_name, nk);
    lemma_lookup(after, old_name);
    lemma_matching_index_bounds(after, old_name);
    if has_match(after.view(), old_name) {
        let k = choose|k: Seq<char>| after.view().contains_key(k) && ascii_lower(k) == ascii_lower(old_name);
        if k == nk {
            assert(ascii_lower(keys[p]) == ascii_lower(old_name));
            assert(has_match(before.view(), nk));
        } else {
            assert(base.contains_key(k));
        }
    }
}

/// After `edit`, looking the name up finds the edited alias under the same
/// stored name.
pub proof fn law_lookup_after_edit(
    before: AliasMap,
    after: AliasMap,
    name: Seq<char>,
    args: EditArgs,
    now: Seq<char>,
)
    requires
        sorted_keys(before.keys()),
        sorted_keys(after.keys()),
        distinct_up_to_case(before.view()),
        matching_index(before.keys(), name) < before.keys().len(),
        after.view() == before.view().insert(
            before.keys()[matching_index(before.keys(), name)],
            edited(before.view()[before.keys()[matching_index(before.keys(), name)]], args, now),
        ),
    ensures
        distinct_up_to_case(after.view()),
        matching_index(after.keys(), name) < after.keys().len(),
        after.keys()[matching_index(after.keys(), name)] == before.keys()[matching_index(
            before.keys(),
            name,
        )],
        after.view()[after.keys()[matching_index(after.keys(), name)]].created_at
            == before.view()[before.keys()[matching_index(before.keys(), name)]].created_at,
{
    let keys = before.keys();
    let p = matching_index(keys, name);
    lemma_lookup(before, name);
    assert(after.view().dom() =~= before.view().dom());
    assert forall|k1: Seq<char>, k2: Seq<char>|
        after.view().contains_key(k1) && after.view().contains_key(k2) && k1 != k2 implies ascii_lower(k1)
        != ascii_lower(k2) by {
        assert(before.view().contains_key(k1) && before.view().contains_key(k2));
    }
    lemma_lookup_unique(after, name, keys[p]);
}


/// `add` keeps a valid configuration valid when the name and command passed
/// its checks and the time stamp `now` is an RFC 3339 time.
pub proof fn law_add_keeps_config_valid(
    version: u32,
    before: AliasMap,
    after: AliasMap,
    name: Seq<char>,
    command: Seq<char>,
    description: Option<Seq<char>>,
    shell: Shell,
    now: Seq<char>,
)
    requires
        sorted_keys(before.keys()),
        sorted_keys(after.keys()),
        config_valid(version, before),
        valid_name(name),
        !is_blank(command),
        rfc3339_accepts(now),
        after.view() == added_view(
            before,
            name,
            added_alias(
                command,
                description,
                shell,
                if matching_index(before.keys(), name) < before.keys().len() {
                    before.view()[before.keys()[matching_index(before.keys(), name)]].created_at
                } else {
                    now
                },
                now,
            ),
        ),
    ensures
        config_valid(version, after),
{
    let keys = before.keys();
    let p = matching_index(keys, name);
    lemma_config_valid_view(version, before);
    lemma_config_valid_view(version, after);
    lemma_lookup(before, name);
    let v = added_alias(command, description, shell, if p < keys.len() {
        before.view()[keys[p]].created_at
    } else {
        now
    }, now);
    law_add_keeps_names_distinct(before, name, v);
    law_name_check_ignores_case(name);
    let m = after.view();
    assert forall|k: Seq<char>| #[trigger] m.contains_key(k) implies valid_name(k) && alias_ok(
        m[k],
    ) by {
        if k != ascii_lower(name) {
            assert(before.view().contains_key(k));
        }
    }
}

/// `edit` keeps a valid configuration valid when a new command passed its
/// check and the time stamp `now` is an RFC 3339 time.
pub proof fn law_edit_keeps_config_valid(
    version: u32,
    before: AliasMap,
    after: AliasMap,
    name: Seq<char>,
    args: EditArgs,
    now: Seq<char>,
)
    requires
        sorted_keys(before.keys()),
        sorted_keys(after.keys()),
        config_valid(version, before),
        args.command matches Some(c) ==> !is_blank(c@),
        rfc3339_accepts(now),
        matching_index(before.keys(), name) < before.keys().len(),
        after.view() == before.view().insert(
            before.keys()[matching_index(before.keys(), name)],
            edited(before.view()[before.keys()[matching_index(before.keys(), name)]], args, now),
        ),
    ensures
        config_valid(version, after),
{
    let keys = before.keys();
    let p = matching_index(keys, name);
    lemma_config_valid_view(version, before);
    lemma_config_valid_view(version, after);
    law_valid_config_names_distinct(version, before);
    law_lookup_after_edit(before, after, name, args, now);
    lemma_lookup(before, name);
    let m = after.view();
    assert forall|k: Seq<char>| #[trigger] m.contains_key(k) implies valid_name(k) && alias_ok(
        m[k],
    ) by {
        assert(before.view().contains_key(k));
    }
}

/// `rename` keeps a valid configuration valid when the new name passed its
/// check and the time stamp `now` is an RFC 3339 time.
pub proof fn law_rename_keeps_config_valid(
    version: u32,
    before: AliasMap,
    after: AliasMap,
    old_name: Seq<char>,
    new_name: Seq<char>,
    now: Seq<char>,
)
    requires
        sorted_keys(before.keys()),
        sorted_keys(after.keys()),
        config_valid(version, before),
        valid_name(new_name),
        rfc3339_accepts(now),
        matching_index(before.keys(), old_name) < before.keys().len(),
        matching_index(before.keys(), ascii_lower(new_name)) == before.keys().len(),
        after.view() == before.view().remove(
            before.keys()[matching_index(before.keys(), old_name)],
        ).insert(
            ascii_lower(new_name),
            AliasView {
                updated_at: now,
                ..before.view()[before.keys()[matching_index(before.keys(), old_name)]]
            },
        ),
    ensures
        config_valid(version, after),
{
    let keys = before.keys();
    let p = matching_index(keys, old_name);
    lemma_config_valid_view(version, before);
    lemma_config_valid_view(version, after);
    law_valid_config_names_distinct(version, before);
    law_lookup_after_rename(before, after, old_name, new_name, now);
    lemma_lookup(before, old_name);
    law_name_check_ignores_case(new_name);
    let m = after.view();
    assert forall|k: Seq<char>| #[trigger] m.contains_key(k) implies valid_name(k) && alias_ok(
        m[k],
    ) by {
        if k != ascii_lower(new_name) {
            assert(before.view().contains_key(k));
        }
    }
}


/// `edit` stores every option it is given and nothing else changes: the alias
/// found afterwards under the name has the new command, description and
/// shell where they were given (the old ones otherwise), is enabled with
/// `--enable`, disabled with `--disable` alone, keeps its state otherwise,
/// keeps its creation time, and was updated at `now`.
pub proof fn law_edit_stores_options(
    before: AliasMap,
    after: AliasMap,
    name: Seq<char>,
    args: EditArgs,
    now: Seq<char>,
)
    requires
        sorted_keys(before.keys()),
        sorted_keys(after.keys()),
        distinct_up_to_case(before.view()),
        matching_index(before.keys(), name) < before.keys().len(),
        after.view() == before.view().insert(
            before.keys()[matching_index(before.keys(), name)],
            edited(before.view()[before.keys()[matching_index(before.keys(), name)]], args, now),
        ),
    ensures
        ({
            let old_alias = before.view()[before.keys()[matching_index(before.keys(), name)]];
            let new_alias = after.view()[after.keys()[matching_index(after.keys(), name)]];
            &&& matching_index(after.keys(), name) < after.keys().len()
            &&& new_alias.command == match args.command {
                Some(c) => c@,
                None => old_alias.command,
            }
            &&& (args.description matches Some(d) ==> new_alias.description == Some(d@))
            &&& (args.description is None ==> new_alias.description == old_alias.description)
            &&& (args.shell matches Some(sh) ==> new_alias.shell == sh)
            &&& (args.shell is None ==> new_alias.shell == old_alias.shell)
            &&& (args.enable ==> new_alias.enabled)
            &&& (!args.enable && args.disable ==> !new_alias.enabled)
            &&& (!args.enable && !args.disable ==> new_alias.enabled == old_alias.enabled)
            &&& new_alias.created_at == old_alias.created_at
            &&& new_alias.updated_at == now
        }),
{
    law_lookup_after_edit(before, after, name, args, now);
}

} // verus!
