//! The command line of `nalias`, as plain values.

use vstd::prelude::*;

use crate::alias::Shell;

verus! {

/// Global options and the selected command.
#[derive(Debug)]
pub struct Cli {
    /// Print execution diagnostics.
    pub verbose: bool,
    pub command: Option<Command>,
}

#[derive(Debug)]
pub enum Command {
    /// Install and initialize Nalias.
    Init(InitArgs),
    /// Create an alias.
    Add(AddArgs),
    /// Execute an alias.
    Run(RunArgs),
    /// List aliases.
    List(JsonArgs),
    /// Show alias details.
    Show(ShowArgs),
    /// Modify an alias.
    Edit(EditArgs),
    /// Rename an alias.
    Rename(RenameArgs),
    /// Delete an alias.
    Remove(RemoveArgs),
    /// Repair generated wrappers.
    Repair,
    /// Diagnose the installation.
    Doctor,
    /// Remove Nalias.
    Uninstall(UninstallArgs),
}

#[derive(Debug, Default)]
pub struct InitArgs {
    /// Reinstall the executable even if one is already installed.
    pub force: bool,
    /// Do not modify the current user's PATH.
    pub skip_path: bool,
}

#[derive(Debug)]
pub struct AddArgs {
    pub name: String,
    pub command: String,
    pub description: Option<String>,
    pub shell: Shell,
    pub force: bool,
}

#[derive(Debug)]
pub struct RunArgs {
    pub name: String,
    /// Print the resolved invocation without running it.
    pub dry_run: bool,
    /// Arguments forwarded to the alias.
    pub arguments: Vec<String>,
}

#[derive(Debug)]
pub struct JsonArgs {
    pub json: bool,
}

#[derive(Debug)]
pub struct ShowArgs {
    pub name: String,
    pub json: bool,
}

#[derive(Debug)]
pub struct EditArgs {
    pub name: String,
    pub command: Option<String>,
    pub description: Option<String>,
    pub shell: Option<Shell>,
    pub enable: bool,
    pub disable: bool,
}

#[derive(Debug)]
pub struct RenameArgs {
    pub old_name: String,
    pub new_name: String,
}

#[derive(Debug)]
pub struct RemoveArgs {
    pub name: String,
    pub yes: bool,
}

#[derive(Debug)]
pub struct UninstallArgs {
    pub keep_config: bool,
    pub yes: bool,
}

impl Cli {
    /// The command to run: a launch without a command initializes with `--force`.
    pub fn into_command(self) -> (r: Command)
        ensures
            match self.command {
                Some(c) => r == c,
                None => r == Command::Init(InitArgs { force: true, skip_path: false }),
            },
    {
        match self.command {
            Some(c) => c,
            None => Command::Init(InitArgs { force: true, skip_path: false }),
        }
    }
}

} // verus!
