//! The command line: options shared by every command, the commands and
//! their options, and the answers to a confirmation prompt.
use crate::package::{ApplyMode, EntryKind, RemoveMode};
use crate::text::{cat, chars_of, str_equal, to_string};
use vstd::prelude::*;

verus! {

/// The usage text, as the program prints it.
pub const USAGE: &'static str = "Usage:
    dtm [--config <PATH>] stow [--pkgs-dir <PATH>] [-s | --semi-force | -f | --force] [-b | --backup] [--dry-run] <PACKAGE>
    dtm [--config <PATH>] pack [-i | --interactive] <PACKAGE> <PATH>...
    dtm [--config <PATH>] rm [--skip-unmanaged] <PACKAGE>
    dtm [--config <PATH>] restore <PACKAGE>
    dtm [--config <PATH>] config set pkgs_dir <PATH>
    dtm [--config <PATH>] config set backup_dir <PATH>
    dtm [--config <PATH>] config get pkgs_dir
    dtm [--config <PATH>] config get backup_dir
    dtm [--config <PATH>] config list";

/// A command line.
#[derive(Debug, Default, PartialEq)]
pub struct Cli {
    pub config: Option<String>,
    pub command: Option<Command>,
    pub help: bool,
}

/// A command.
#[derive(Debug, PartialEq)]
pub enum Command {
    Stow(StowCommand),
    Pack(PackCommand),
    Remove(RemoveCommand),
    Restore(RestoreCommand),
    Config(ConfigCommand),
}

/// `stow`: install a package.
#[derive(Debug, PartialEq)]
pub struct StowCommand {
    pub name: String,
    pub pkgs_dir: Option<String>,
    pub mode: ApplyMode,
    pub backup: bool,
    pub dry_run: bool,
}

/// `pack`: move files into a package and install it.
#[derive(Debug, PartialEq)]
pub struct PackCommand {
    pub name: String,
    pub inputs: Vec<String>,
    pub interactive: bool,
}

/// `rm`: remove a package.
#[derive(Debug, PartialEq)]
pub struct RemoveCommand {
    pub name: String,
    pub skip_unmanaged: bool,
}

/// `restore`: remove a package and restore its backups.
#[derive(Debug, PartialEq)]
pub struct RestoreCommand {
    pub name: String,
}

/// `config`: set, show or list the runtime settings.
#[derive(Debug, PartialEq)]
pub enum ConfigCommand {
    SetPkgsDir(String),
    SetBackupDir(String),
    GetPkgsDir,
    GetBackupDir,
    List,
}

/// A command-line failure.
#[derive(Debug, PartialEq)]
pub enum CliError {
    MissingConfigPath,
    MissingPkgsDirectory,
    ConflictingModes,
    MissingCommand,
    MissingPackage,
    MissingPackInput,
    InteractiveRequiresOneDirectory,
    PromptClosed,
    PromptIo(String),
    BackupDirectoryNotConfigured,
    InvalidConfigCommand,
    UnknownCommand(String),
    UnexpectedArgument(String),
    UnknownArgument(String),
}

pub enum CliErr {
    MissingConfigPath,
    MissingPkgsDirectory,
    ConflictingModes,
    MissingCommand,
    MissingPackage,
    MissingPackInput,
    InteractiveRequiresOneDirectory,
    PromptClosed,
    PromptIo(Seq<char>),
    BackupDirectoryNotConfigured,
    InvalidConfigCommand,
    UnknownCommand(Seq<char>),
    UnexpectedArgument(Seq<char>),
    UnknownArgument(Seq<char>),
}

impl CliError {
    pub open spec fn view(&self) -> CliErr {
        match self {
            CliError::MissingConfigPath => CliErr::MissingConfigPath,
            CliError::MissingPkgsDirectory => CliErr::MissingPkgsDirectory,
            CliError::ConflictingModes => CliErr::ConflictingModes,
            CliError::MissingCommand => CliErr::MissingCommand,
            CliError::MissingPackage => CliErr::MissingPackage,
            CliError::MissingPackInput => CliErr::MissingPackInput,
            CliError::InteractiveRequiresOneDirectory => CliErr::InteractiveRequiresOneDirectory,
            CliError::PromptClosed => CliErr::PromptClosed,
            CliError::PromptIo(s) => CliErr::PromptIo(s@),
            CliError::BackupDirectoryNotConfigured => CliErr::BackupDirectoryNotConfigured,
            CliError::InvalidConfigCommand => CliErr::InvalidConfigCommand,
            CliError::UnknownCommand(s) => CliErr::UnknownCommand(s@),
            CliError::UnexpectedArgument(s) => CliErr::UnexpectedArgument(s@),
            CliError::UnknownArgument(s) => CliErr::UnknownArgument(s@),
        }
    }
}

/// The usage text that help prints and that command-line errors end with.
pub open spec fn usage_text() -> Seq<char> {
    USAGE@
}

/// The usage text.
pub fn usage() -> (res: String)
    ensures
        res@ == usage_text(),
{
    to_string(USAGE)
}

/// The text that reports a command-line failure.
pub open spec fn cli_message_spec(e: CliErr) -> Seq<char> {
    match e {
        CliErr::MissingConfigPath => "--config requires a file path\n"@ + usage_text(),
        CliErr::MissingPkgsDirectory => "--pkgs-dir requires a directory path\n"@ + usage_text(),
        CliErr::ConflictingModes => "only one force mode can be selected\n"@ + usage_text(),
        CliErr::MissingCommand => "a command is required\n"@ + usage_text(),
        CliErr::MissingPackage => "a package name is required\n"@ + usage_text(),
        CliErr::MissingPackInput => "pack requires at least one path\n"@ + usage_text(),
        CliErr::InteractiveRequiresOneDirectory => "interactive pack requires exactly one directory\n"@ + usage_text(),
        CliErr::PromptClosed => "package conflict confirmation was cancelled"@,
        CliErr::PromptIo(e) => "could not read confirmation: "@ + e,
        CliErr::BackupDirectoryNotConfigured => "config.backup_dir is not configured"@,
        CliErr::InvalidConfigCommand => "invalid config command\n"@ + usage_text(),
        CliErr::UnknownCommand(c) => "unknown command '"@ + c + "'\n"@ + usage_text(),
        CliErr::UnexpectedArgument(a) => "unexpected argument '"@ + a + "'\n"@ + usage_text(),
        CliErr::UnknownArgument(a) => "unknown argument '"@ + a + "'\n"@ + usage_text(),
    }
}

impl CliError {
    /// The text that reports the failure.
    pub fn message(&self) -> (res: String)
        ensures
            res@ == cli_message_spec(self.view()),
    {
        match self {
            CliError::MissingConfigPath => cat(to_string("--config requires a file path\n"), USAGE),
            CliError::MissingPkgsDirectory => cat(to_string("--pkgs-dir requires a directory path\n"), USAGE),
            CliError::ConflictingModes => cat(to_string("only one force mode can be selected\n"), USAGE),
            CliError::MissingCommand => cat(to_string("a command is required\n"), USAGE),
            CliError::MissingPackage => cat(to_string("a package name is required\n"), USAGE),
            CliError::MissingPackInput => cat(to_string("pack requires at least one path\n"), USAGE),
            CliError::InteractiveRequiresOneDirectory => cat(to_string("interactive pack requires exactly one directory\n"), USAGE),
            CliError::PromptClosed => to_string("package conflict confirmation was cancelled"),
            CliError::PromptIo(e) => cat(to_string("could not read confirmation: "), e.as_str()),
            CliError::BackupDirectoryNotConfigured => to_string("config.backup_dir is not configured"),
            CliError::InvalidConfigCommand => cat(to_string("invalid config command\n"), USAGE),
            CliError::UnknownCommand(c) => cat(cat(cat(to_string("unknown command '"), c.as_str()), "'\n"), USAGE),
            CliError::UnexpectedArgument(a) => cat(cat(cat(to_string("unexpected argument '"), a.as_str()), "'\n"), USAGE),
            CliError::UnknownArgument(a) => cat(cat(cat(to_string("unknown argument '"), a.as_str()), "'\n"), USAGE),
        }
    }
}

pub enum ConfigView {
    SetPkgsDir(Seq<char>),
    SetBackupDir(Seq<char>),
    GetPkgsDir,
    GetBackupDir,
    List,
}

pub enum CommandView {
    Stow { name: Seq<char>, pkgs_dir: Option<Seq<char>>, mode: ApplyMode, backup: bool, dry_run: bool },
    Pack { name: Seq<char>, inputs: Seq<Seq<char>>, interactive: bool },
    Remove { name: Seq<char>, skip_unmanaged: bool },
    Restore { name: Seq<char> },
    Config(ConfigView),
}

pub struct CliView {
    pub config: Option<Seq<char>>,
    pub command: Option<CommandView>,
    pub help: bool,
}

pub open spec fn args_view(v: Seq<String>) -> Seq<Seq<char>> {
    v.map_values(|s: String| s@)
}

pub open spec fn opt_view(o: Option<String>) -> Option<Seq<char>> {
    match o {
        Some(s) => Some(s@),
        None => None,
    }
}

impl ConfigCommand {
    pub open spec fn view(&self) -> ConfigView {
        match self {
            ConfigCommand::SetPkgsDir(p) => ConfigView::SetPkgsDir(p@),
            ConfigCommand::SetBackupDir(p) => ConfigView::SetBackupDir(p@),
            ConfigCommand::GetPkgsDir => ConfigView::GetPkgsDir,
            ConfigCommand::GetBackupDir => ConfigView::GetBackupDir,
            ConfigCommand::List => ConfigView::List,
        }
    }
}

impl Command {
    pub open spec fn view(&self) -> CommandView {
        match self {
            Command::Stow(c) => CommandView::Stow {
                name: c.name@,
                pkgs_dir: opt_view(c.pkgs_dir),
                mode: c.mode,
                backup: c.backup,
                dry_run: c.dry_run,
            },
            Command::Pack(c) => CommandView::Pack {
                name: c.name@,
                inputs: args_view(c.inputs@),
                interactive: c.interactive,
            },
            Command::Remove(c) => CommandView::Remove { name: c.name@, skip_unmanaged: c.skip_unmanaged },
            Command::Restore(c) => CommandView::Restore { name: c.name@ },
            Command::Config(c) => CommandView::Config(c.view()),
        }
    }
}

impl Cli {
    pub open spec fn view(&self) -> CliView {
        CliView {
            config: opt_view(self.config),
            command: match self.command {
                Some(c) => Some(c.view()),
                None => None,
            },
            help: self.help,
        }
    }
}

/// An argument that looks like an option.
pub open spec fn is_option(a: Seq<char>) -> bool {
    a.len() > 0 && a[0] == '-'
}

/// The options shared by every command, wherever they stand: `--config`
/// takes the next argument (the last one counts), `--help` and `-h` ask
/// for help; the other arguments are the command's, in order.
pub open spec fn split_args(
    args: Seq<Seq<char>>,
    i: int,
    config: Option<Seq<char>>,
    help: bool,
    rest: Seq<Seq<char>>,
) -> Result<(Option<Seq<char>>, bool, Seq<Seq<char>>), CliErr>
    decreases args.len() - i,
{
    if i < 0 || i >= args.len() {
        Ok((config, help, rest))
    } else if args[i] == "--config"@ {
        if i + 1 >= args.len() {
            Err(CliErr::MissingConfigPath)
        } else {
            split_args(args, i + 2, Some(args[i + 1]), help, rest)
        }
    } else if args[i] == "--help"@ || args[i] == "-h"@ {
        split_args(args, i + 1, config, true, rest)
    } else {
        split_args(args, i + 1, config, help, rest.push(args[i]))
    }
}

/// `config list`, `config get KEY`, `config set KEY PATH`, with the keys
/// `pkgs_dir` and `backup_dir`; nothing else.
pub open spec fn config_spec(a: Seq<Seq<char>>) -> Result<ConfigView, CliErr> {
    if a.len() == 1 && a[0] == "list"@ {
        Ok(ConfigView::List)
    } else if a.len() == 2 && a[0] == "get"@ && a[1] == "pkgs_dir"@ {
        Ok(ConfigView::GetPkgsDir)
    } else if a.len() == 2 && a[0] == "get"@ && a[1] == "backup_dir"@ {
        Ok(ConfigView::GetBackupDir)
    } else if a.len() == 3 && a[0] == "set"@ && a[1] == "pkgs_dir"@ {
        Ok(ConfigView::SetPkgsDir(a[2]))
    } else if a.len() == 3 && a[0] == "set"@ && a[1] == "backup_dir"@ {
        Ok(ConfigView::SetBackupDir(a[2]))
    } else {
        Err(CliErr::InvalidConfigCommand)
    }
}

/// The options and positional arguments of `pack`, from `i`.
pub open spec fn pack_args(a: Seq<Seq<char>>, i: int, positional: Seq<Seq<char>>, interactive: bool) -> Result<
    (Seq<Seq<char>>, bool),
    CliErr,
>
    decreases a.len() - i,
{
    if i < 0 || i >= a.len() {
        Ok((positional, interactive))
    } else if a[i] == "-i"@ || a[i] == "--interactive"@ {
        pack_args(a, i + 1, positional, true)
    } else if is_option(a[i]) {
        Err(CliErr::UnknownArgument(a[i]))
    } else {
        pack_args(a, i + 1, positional.push(a[i]), interactive)
    }
}

/// `pack [-i] PACKAGE PATH...`; interactive packing takes one directory.
pub open spec fn pack_spec(a: Seq<Seq<char>>) -> Result<CommandView, CliErr> {
    match pack_args(a, 0, Seq::empty(), false) {
        Err(e) => Err(e),
        Ok((p, interactive)) => if p.len() == 0 {
            Err(CliErr::MissingPackage)
        } else if p.len() == 1 {
            Err(CliErr::MissingPackInput)
        } else if interactive && p.len() != 2 {
            Err(CliErr::InteractiveRequiresOneDirectory)
        } else {
            Ok(CommandView::Pack { name: p[0], inputs: p.skip(1), interactive })
        },
    }
}

/// The options and package of `rm`, from `i`.
pub open spec fn remove_args(a: Seq<Seq<char>>, i: int, name: Option<Seq<char>>, skip: bool) -> Result<
    (Option<Seq<char>>, bool),
    CliErr,
>
    decreases a.len() - i,
{
    if i < 0 || i >= a.len() {
        Ok((name, skip))
    } else if a[i] == "--skip-unmanaged"@ {
        remove_args(a, i + 1, name, true)
    } else if is_option(a[i]) {
        Err(CliErr::UnknownArgument(a[i]))
    } else if name is Some {
        Err(CliErr::UnexpectedArgument(a[i]))
    } else {
        remove_args(a, i + 1, Some(a[i]), skip)
    }
}

/// `rm [--skip-unmanaged] PACKAGE`.
pub open spec fn remove_spec(a: Seq<Seq<char>>) -> Result<CommandView, CliErr> {
    match remove_args(a, 0, None, false) {
        Err(e) => Err(e),
        Ok((None, _)) => Err(CliErr::MissingPackage),
        Ok((Some(n), skip)) => Ok(CommandView::Remove { name: n, skip_unmanaged: skip }),
    }
}

/// `restore PACKAGE`.
pub open spec fn restore_spec(a: Seq<Seq<char>>) -> Result<CommandView, CliErr> {
    if a.len() == 0 {
        Err(CliErr::MissingPackage)
    } else if is_option(a[0]) {
        Err(CliErr::UnknownArgument(a[0]))
    } else if a.len() > 1 {
        Err(CliErr::UnexpectedArgument(a[1]))
    } else {
        Ok(CommandView::Restore { name: a[0] })
    }
}

/// The state of `stow`'s options.
pub struct StowState {
    pub name: Option<Seq<char>>,
    pub pkgs_dir: Option<Seq<char>>,
    pub mode: ApplyMode,
    pub backup: bool,
    pub dry_run: bool,
}

/// The options and package of `stow`, from `i`: one force mode at most;
/// `--pkgs-dir` takes the next argument.
pub open spec fn stow_args(a: Seq<Seq<char>>, i: int, st: StowState) -> Result<StowState, CliErr>
    decreases a.len() - i,
{
    if i < 0 || i >= a.len() {
        Ok(st)
    } else if a[i] == "--semi-force"@ || a[i] == "-s"@ {
        if st.mode != ApplyMode::Normal {
            Err(CliErr::ConflictingModes)
        } else {
            stow_args(a, i + 1, StowState { mode: ApplyMode::SemiForce, ..st })
        }
    } else if a[i] == "--force"@ || a[i] == "-f"@ {
        if st.mode != ApplyMode::Normal {
            Err(CliErr::ConflictingModes)
        } else {
            stow_args(a, i + 1, StowState { mode: ApplyMode::Force, ..st })
        }
    } else if a[i] == "--backup"@ || a[i] == "-b"@ {
        stow_args(a, i + 1, StowState { backup: true, ..st })
    } else if a[i] == "--dry-run"@ {
        stow_args(a, i + 1, StowState { dry_run: true, ..st })
    } else if a[i] == "--pkgs-dir"@ {
        if i + 1 >= a.len() {
            Err(CliErr::MissingPkgsDirectory)
        } else {
            stow_args(a, i + 2, StowState { pkgs_dir: Some(a[i + 1]), ..st })
        }
    } else if is_option(a[i]) {
        Err(CliErr::UnknownArgument(a[i]))
    } else if st.name is Some {
        Err(CliErr::UnexpectedArgument(a[i]))
    } else {
        stow_args(a, i + 1, StowState { name: Some(a[i]), ..st })
    }
}

/// `stow [--pkgs-dir PATH] [-s | -f] [-b] [--dry-run] PACKAGE`.
pub open spec fn stow_spec(a: Seq<Seq<char>>) -> Result<CommandView, CliErr> {
    match stow_args(
        a,
        0,
        StowState { name: None, pkgs_dir: None, mode: ApplyMode::Normal, backup: false, dry_run: false },
    ) {
        Err(e) => Err(e),
        Ok(st) => match st.name {
            None => Err(CliErr::MissingPackage),
            Some(n) => Ok(
                CommandView::Stow {
                    name: n,
                    pkgs_dir: st.pkgs_dir,
                    mode: st.mode,
                    backup: st.backup,
                    dry_run: st.dry_run,
                },
            ),
        },
    }
}

/// The command named by the first of the command's arguments.
pub open spec fn command_spec(c: Seq<Seq<char>>) -> Result<Option<CommandView>, CliErr> {
    if c.len() == 0 {
        Ok(None)
    } else {
        let rest = c.skip(1);
        let parsed = if c[0] == "config"@ {
            match config_spec(rest) {
                Ok(v) => Ok(CommandView::Config(v)),
                Err(e) => Err(e),
            }
        } else if c[0] == "stow"@ {
            stow_spec(rest)
        } else if c[0] == "pack"@ {
            pack_spec(rest)
        } else if c[0] == "rm"@ {
            remove_spec(rest)
        } else if c[0] == "restore"@ {
            restore_spec(rest)
        } else {
            Err(CliErr::UnknownCommand(c[0]))
        };
        match parsed {
            Ok(v) => Ok(Some(v)),
            Err(e) => Err(e),
        }
    }
}

/// The command line `args`.
pub open spec fn parse_spec(args: Seq<Seq<char>>) -> Result<CliView, CliErr> {
    match split_args(args, 0, None, false, Seq::empty()) {
        Err(e) => Err(e),
        Ok((config, help, rest)) => match command_spec(rest) {
            Err(e) => Err(e),
            Ok(command) => Ok(CliView { config, command, help }),
        },
    }
}

fn is_option_exec(a: &str) -> (res: bool)
    ensures
        res == is_option(a@),
{
    let c = chars_of(a);
    c.len() > 0 && c[0] == '-'
}

fn copy_args(a: &Vec<String>, from: usize) -> (res: Vec<String>)
    requires
        from <= a@.len(),
    ensures
        args_view(res@) == args_view(a@).skip(from as int),
{
    let mut out: Vec<String> = Vec::new();
    let mut i = from;
    while i < a.len()
        invariant
            from <= i <= a@.len(),
            args_view(out@) == args_view(a@).subrange(from as int, i as int),
        decreases a@.len() - i,
    {
        let s = a[i].clone();
        let ghost before = args_view(out@);
        out.push(s);
        assert(args_view(out@) =~= before.push(s@));
        assert(args_view(a@).subrange(from as int, i + 1) =~= args_view(a@).subrange(
            from as int,
            i as int,
        ).push(a@[i as int]@));
        i += 1;
    }
    assert(args_view(a@).subrange(from as int, i as int) =~= args_view(a@).skip(from as int));
    out
}

/// Parses `config` arguments.
pub fn parse_config_command(a: &Vec<String>) -> (res: Result<ConfigCommand, CliError>)
    ensures
        match config_spec(args_view(a@)) {
            Ok(v) => res matches Ok(x) && x.view() == v,
            Err(e) => res matches Err(x) && x.view() == e,
        },
{
    let n = a.len();
    if n == 1 && str_equal(a[0].as_str(), "list") {
        return Ok(ConfigCommand::List);
    }
    if n == 2 && str_equal(a[0].as_str(), "get") && str_equal(a[1].as_str(), "pkgs_dir") {
        return Ok(ConfigCommand::GetPkgsDir);
    }
    if n == 2 && str_equal(a[0].as_str(), "get") && str_equal(a[1].as_str(), "backup_dir") {
        return Ok(ConfigCommand::GetBackupDir);
    }
    if n == 3 && str_equal(a[0].as_str(), "set") && str_equal(a[1].as_str(), "pkgs_dir") {
        return Ok(ConfigCommand::SetPkgsDir(a[2].clone()));
    }
    if n == 3 && str_equal(a[0].as_str(), "set") && str_equal(a[1].as_str(), "backup_dir") {
        return Ok(ConfigCommand::SetBackupDir(a[2].clone()));
    }
    Err(CliError::InvalidConfigCommand)
}

/// Parses `pack` arguments.
#[verifier::loop_isolation(false)]
pub fn parse_pack_command(a: &Vec<String>) -> (res: Result<PackCommand, CliError>)
    ensures
        match pack_spec(args_view(a@)) {
            Ok(v) => res matches Ok(x) && Command::Pack(x).view() == v,
            Err(e) => res matches Err(x) && x.view() == e,
        },
{
    let ghost av = args_view(a@);
    let mut positional: Vec<String> = Vec::new();
    let mut interactive = false;
    let mut i: usize = 0;
    assert(args_view(positional@) =~= Seq::<Seq<char>>::empty());
    while i < a.len()
        invariant
            i <= av.len(),
            av == args_view(a@),
            pack_args(av, 0, Seq::empty(), false) == pack_args(av, i as int, args_view(positional@), interactive),
        decreases av.len() - i,
    {
        let arg = &a[i];
        if str_equal(arg.as_str(), "-i") || str_equal(arg.as_str(), "--interactive") {
            interactive = true;
        } else if is_option_exec(arg.as_str()) {
            return Err(CliError::UnknownArgument(arg.clone()));
        } else {
            let ghost before = args_view(positional@);
            positional.push(arg.clone());
            assert(args_view(positional@) =~= before.push(av[i as int]));
        }
        i += 1;
    }
    if positional.len() == 0 {
        return Err(CliError::MissingPackage);
    }
    if positional.len() == 1 {
        return Err(CliError::MissingPackInput);
    }
    if interactive && positional.len() != 2 {
        return Err(CliError::InteractiveRequiresOneDirectory);
    }
    let name = positional[0].clone();
    let inputs = copy_args(&positional, 1);
    Ok(PackCommand { name, inputs, interactive })
}

/// Parses `rm` arguments.
#[verifier::loop_isolation(false)]
pub fn parse_remove_command(a: &Vec<String>) -> (res: Result<RemoveCommand, CliError>)
    ensures
        match remove_spec(args_view(a@)) {
            Ok(v) => res matches Ok(x) && Command::Remove(x).view() == v,
            Err(e) => res matches Err(x) && x.view() == e,
        },
{
    let ghost av = args_view(a@);
    let mut name: Option<String> = None;
    let mut skip_unmanaged = false;
    let mut i: usize = 0;
    while i < a.len()
        invariant
            i <= av.len(),
            av == args_view(a@),
            remove_args(av, 0, None, false) == remove_args(av, i as int, opt_view(name), skip_unmanaged),
        decreases av.len() - i,
    {
        let arg = &a[i];
        if str_equal(arg.as_str(), "--skip-unmanaged") {
            skip_unmanaged = true;
        } else if is_option_exec(arg.as_str()) {
            return Err(CliError::UnknownArgument(arg.clone()));
        } else {
            if name.is_some() {
                return Err(CliError::UnexpectedArgument(arg.clone()));
            }
            name = Some(arg.clone());
        }
        i += 1;
    }
    match name {
        Some(n) => Ok(RemoveCommand { name: n, skip_unmanaged }),
        None => Err(CliError::MissingPackage),
    }
}

/// Parses `restore` arguments.
pub fn parse_restore_command(a: &Vec<String>) -> (res: Result<RestoreCommand, CliError>)
    ensures
        match restore_spec(args_view(a@)) {
            Ok(v) => res matches Ok(x) && Command::Restore(x).view() == v,
            Err(e) => res matches Err(x) && x.view() == e,
        },
{
    if a.len() == 0 {
        return Err(CliError::MissingPackage);
    }
    if is_option_exec(a[0].as_str()) {
        return Err(CliError::UnknownArgument(a[0].clone()));
    }
    if a.len() > 1 {
        return Err(CliError::UnexpectedArgument(a[1].clone()));
    }
    Ok(RestoreCommand { name: a[0].clone() })
}

/// Parses `stow` arguments.
#[verifier::loop_isolation(false)]
pub fn parse_stow_command(a: &Vec<String>) -> (res: Result<StowCommand, CliError>)
    ensures
        match stow_spec(args_view(a@)) {
            Ok(v) => res matches Ok(x) && Command::Stow(x).view() == v,
            Err(e) => res matches Err(x) && x.view() == e,
        },
{
    let ghost av = args_view(a@);
    let mut name: Option<String> = None;
    let mut pkgs_dir: Option<String> = None;
    let mut mode = ApplyMode::Normal;
    let mut backup = false;
    let mut dry_run = false;
    let mut i: usize = 0;
    let ghost start = StowState {
        name: None,
        pkgs_dir: None,
        mode: ApplyMode::Normal,
        backup: false,
        dry_run: false,
    };
    while i < a.len()
        invariant
            i <= av.len(),
            av == args_view(a@),
            stow_args(av, 0, start) == stow_args(
                av,
                i as int,
                StowState { name: opt_view(name), pkgs_dir: opt_view(pkgs_dir), mode, backup, dry_run },
            ),
        decreases av.len() - i,
    {
        let arg = &a[i];
        if str_equal(arg.as_str(), "--semi-force") || str_equal(arg.as_str(), "-s") {
            if mode != ApplyMode::Normal {
                return Err(CliError::ConflictingModes);
            }
            mode = ApplyMode::SemiForce;
        } else if str_equal(arg.as_str(), "--force") || str_equal(arg.as_str(), "-f") {
            if mode != ApplyMode::Normal {
                return Err(CliError::ConflictingModes);
            }
            mode = ApplyMode::Force;
        } else if str_equal(arg.as_str(), "--backup") || str_equal(arg.as_str(), "-b") {
            backup = true;
        } else if str_equal(arg.as_str(), "--dry-run") {
            dry_run = true;
        } else if str_equal(arg.as_str(), "--pkgs-dir") {
            if i + 1 >= a.len() {
                return Err(CliError::MissingPkgsDirectory);
            }
            pkgs_dir = Some(a[i + 1].clone());
            i += 1;
        } else if is_option_exec(arg.as_str()) {
            return Err(CliError::UnknownArgument(arg.clone()));
        } else {
            if name.is_some() {
                return Err(CliError::UnexpectedArgument(arg.clone()));
            }
            name = Some(arg.clone());
        }
        i += 1;
    }
    match name {
        Some(n) => Ok(StowCommand { name: n, pkgs_dir, mode, backup, dry_run }),
        None => Err(CliError::MissingPackage),
    }
}

impl Cli {
    /// Parses the command-line arguments (without the program name).
    #[verifier::loop_isolation(false)]
    pub fn parse(args: Vec<String>) -> (res: Result<Self, CliError>)
        ensures
            match parse_spec(args_view(args@)) {
                Ok(v) => res matches Ok(x) && x.view() == v,
                Err(e) => res matches Err(x) && x.view() == e,
            },
    {
        let ghost av = args_view(args@);
        let mut config: Option<String> = None;
        let mut help = false;
        let mut command_args: Vec<String> = Vec::new();
        let mut i: usize = 0;
        assert(args_view(command_args@) =~= Seq::<Seq<char>>::empty());
        while i < args.len()
            invariant
                i <= av.len(),
                av == args_view(args@),
                split_args(av, 0, None, false, Seq::empty()) == split_args(
                    av,
                    i as int,
                    opt_view(config),
                    help,
                    args_view(command_args@),
                ),
            decreases av.len() - i,
        {
            let arg = &args[i];
            if str_equal(arg.as_str(), "--config") {
                if i + 1 >= args.len() {
                    return Err(CliError::MissingConfigPath);
                }
                config = Some(args[i + 1].clone());
                i += 2;
            } else if str_equal(arg.as_str(), "--help") || str_equal(arg.as_str(), "-h") {
                help = true;
                i += 1;
            } else {
                let ghost before = args_view(command_args@);
                command_args.push(arg.clone());
                assert(args_view(command_args@) =~= before.push(av[i as int]));
                i += 1;
            }
        }
        let ghost cv = args_view(command_args@);
        if command_args.len() == 0 {
            return Ok(Cli { config, command: None, help });
        }
        let rest = copy_args(&command_args, 1);
        let first = command_args[0].as_str();
        let command = if str_equal(first, "config") {
            Command::Config(parse_config_command(&rest)?)
        } else if str_equal(first, "stow") {
            Command::Stow(parse_stow_command(&rest)?)
        } else if str_equal(first, "pack") {
            Command::Pack(parse_pack_command(&rest)?)
        } else if str_equal(first, "rm") {
            Command::Remove(parse_remove_command(&rest)?)
        } else if str_equal(first, "restore") {
            Command::Restore(parse_restore_command(&rest)?)
        } else {
            return Err(CliError::UnknownCommand(command_args[0].clone()));
        };
        Ok(Cli { config: config, command: Some(command), help })
    }
}

/// What an answer to a yes-or-no prompt means, white space around it aside.
pub open spec fn answer_spec(line: Seq<char>) -> Option<bool> {
    let t = crate::text::trim(line);
    if t == "y"@ || t == "Y"@ {
        Some(true)
    } else if t == "n"@ || t == "N"@ {
        Some(false)
    } else {
        None
    }
}

/// The answer to a yes-or-no prompt: `y` or `Y` is yes, `n` or `N` is no;
/// anything else asks again.
pub fn confirmation_answer(line: &str) -> (res: Option<bool>)
    ensures
        res == answer_spec(line@),
{
    let chars = chars_of(line);
    let (a, b) = crate::text::trim_range(chars.as_slice());
    let t = crate::text::string_of(crate::text::chars_range(chars.as_slice(), a, b).as_slice());
    if str_equal(t.as_str(), "y") || str_equal(t.as_str(), "Y") {
        Some(true)
    } else if str_equal(t.as_str(), "n") || str_equal(t.as_str(), "N") {
        Some(false)
    } else {
        None
    }
}

/// The backup directory that `stow` uses: `--backup` needs
/// `config.backup_dir`; only a mode that replaces targets makes backups.
pub fn stow_backup_dir(command: &StowCommand, backup_dir: Option<&str>) -> (res: Result<Option<String>, CliError>)
    ensures
        if command.backup {
            match backup_dir {
                None => res matches Err(e) && e.view() == CliErr::BackupDirectoryNotConfigured,
                Some(d) => if command.mode != ApplyMode::Normal {
                    res matches Ok(Some(x)) && x@ == d@
                } else {
                    res matches Ok(None)
                },
            }
        } else {
            res matches Ok(None)
        },
{
    if command.backup {
        match backup_dir {
            None => Err(CliError::BackupDirectoryNotConfigured),
            Some(d) => if command.mode != ApplyMode::Normal {
                Ok(Some(crate::text::to_string(d)))
            } else {
                Ok(None)
            },
        }
    } else {
        Ok(None)
    }
}

/// The removal mode that `rm` asks for.
pub fn remove_mode(command: &RemoveCommand) -> (res: RemoveMode)
    ensures
        res == (if command.skip_unmanaged {
            RemoveMode::SkipUnmanaged
        } else {
            RemoveMode::Safe
        }),
{
    if command.skip_unmanaged {
        RemoveMode::SkipUnmanaged
    } else {
        RemoveMode::Safe
    }
}

/// The name of an entry kind in a dry run.
pub fn entry_kind_name(kind: EntryKind) -> (res: &'static str)
    ensures
        res@ == (match kind {
            EntryKind::Symlink => "symlink"@,
            EntryKind::Template => "template"@,
        }),
{
    match kind {
        EntryKind::Symlink => "symlink",
        EntryKind::Template => "template",
    }
}

/// The command line `stow` with package `name` and the given settings, and
/// nothing else.
pub open spec fn stow_line(name: Seq<char>, mode: ApplyMode, backup: bool, dry_run: bool) -> Result<
    CliView,
    CliErr,
> {
    Ok(
        CliView {
            config: None,
            command: Some(CommandView::Stow { name, pkgs_dir: None, mode, backup, dry_run }),
            help: false,
        },
    )
}

proof fn lemma_option_literals()
    ensures
        "stow"@ == seq!['s', 't', 'o', 'w'],
        "config"@ == seq!['c', 'o', 'n', 'f', 'i', 'g'],
        "pack"@ == seq!['p', 'a', 'c', 'k'],
        "rm"@ == seq!['r', 'm'],
        "restore"@ == seq!['r', 'e', 's', 't', 'o', 'r', 'e'],
        "--config"@ == seq!['-', '-', 'c', 'o', 'n', 'f', 'i', 'g'],
        "--help"@ == seq!['-', '-', 'h', 'e', 'l', 'p'],
        "-h"@ == seq!['-', 'h'],
        "--semi-force"@ == seq!['-', '-', 's', 'e', 'm', 'i', '-', 'f', 'o', 'r', 'c', 'e'],
        "-s"@ == seq!['-', 's'],
        "--force"@ == seq!['-', '-', 'f', 'o', 'r', 'c', 'e'],
        "-f"@ == seq!['-', 'f'],
        "--backup"@ == seq!['-', '-', 'b', 'a', 'c', 'k', 'u', 'p'],
        "-b"@ == seq!['-', 'b'],
        "--dry-run"@ == seq!['-', '-', 'd', 'r', 'y', '-', 'r', 'u', 'n'],
        "--pkgs-dir"@ == seq!['-', '-', 'p', 'k', 'g', 's', '-', 'd', 'i', 'r'],
{
    reveal_strlit("stow");
    reveal_strlit("config");
    reveal_strlit("pack");
    reveal_strlit("rm");
    reveal_strlit("restore");
    reveal_strlit("--config");
    reveal_strlit("--help");
    reveal_strlit("-h");
    reveal_strlit("--semi-force");
    reveal_strlit("-s");
    reveal_strlit("--force");
    reveal_strlit("-f");
    reveal_strlit("--backup");
    reveal_strlit("-b");
    reveal_strlit("--dry-run");
    reveal_strlit("--pkgs-dir");
}

/// Each option of `stow` has the same effect in its long and short form and
/// before or after the package: `--semi-force`/`-s` select the semi-force
/// mode, `--force`/`-f` the force mode, `--backup`/`-b` ask for backups and
/// `--dry-run` for a dry run, for every package name `name`.
pub proof fn lemma_stow_options(name: Seq<char>)
    requires
        name.len() > 0,
        name[0] != '-',
    ensures
        parse_spec(seq!["stow"@, "--semi-force"@, name]) == stow_line(name, ApplyMode::SemiForce, false, false),
        parse_spec(seq!["stow"@, "-s"@, name]) == stow_line(name, ApplyMode::SemiForce, false, false),
        parse_spec(seq!["stow"@, name, "--semi-force"@]) == stow_line(name, ApplyMode::SemiForce, false, false),
        parse_spec(seq!["stow"@, name, "-s"@]) == stow_line(name, ApplyMode::SemiForce, false, false),
        parse_spec(seq!["stow"@, "--force"@, name]) == stow_line(name, ApplyMode::Force, false, false),
        parse_spec(seq!["stow"@, "-f"@, name]) == stow_line(name, ApplyMode::Force, false, false),
        parse_spec(seq!["stow"@, name, "--force"@]) == stow_line(name, ApplyMode::Force, false, false),
        parse_spec(seq!["stow"@, name, "-f"@]) == stow_line(name, ApplyMode::Force, false, false),
        parse_spec(seq!["stow"@, "--backup"@, name]) == stow_line(name, ApplyMode::Normal, true, false),
        parse_spec(seq!["stow"@, "-b"@, name]) == stow_line(name, ApplyMode::Normal, true, false),
        parse_spec(seq!["stow"@, "--dry-run"@, name]) == stow_line(name, ApplyMode::Normal, false, true),
{
    lemma_option_literals();
    assert(!is_option(name));
    let s0 = StowState { name: None, pkgs_dir: None, mode: ApplyMode::Normal, backup: false, dry_run: false };
    assert("--config"@[0] == '-' && "--help"@[0] == '-' && "-h"@[0] == '-');
    assert(stow_args(seq!["--semi-force"@, name], 0, s0) == Ok::<StowState, CliErr>(StowState { name: Some(name), pkgs_dir: None, mode: ApplyMode::SemiForce, backup: false, dry_run: false })) by {
        let r = seq!["--semi-force"@, name];
        assert(stow_args(r, 0, s0) == stow_args(r, 1, StowState { name: None, pkgs_dir: None, mode: ApplyMode::SemiForce, backup: false, dry_run: false }));
        assert(stow_args(r, 1, StowState { name: None, pkgs_dir: None, mode: ApplyMode::SemiForce, backup: false, dry_run: false }) == stow_args(r, 2, StowState { name: Some(name), pkgs_dir: None, mode: ApplyMode::SemiForce, backup: false, dry_run: false }));
    }
    lemma_stow_line(name, "--semi-force"@, true);
    assert(seq!["stow"@] + seq!["--semi-force"@, name] =~= seq!["stow"@, "--semi-force"@, name]);
    assert(stow_args(seq![name, "--semi-force"@], 0, s0) == Ok::<StowState, CliErr>(StowState { name: Some(name), pkgs_dir: None, mode: ApplyMode::SemiForce, backup: false, dry_run: false })) by {
        let r = seq![name, "--semi-force"@];
        assert(stow_args(r, 0, s0) == stow_args(r, 1, StowState { name: Some(name), pkgs_dir: None, mode: ApplyMode::Normal, backup: false, dry_run: false }));
        assert(stow_args(r, 1, StowState { name: Some(name), pkgs_dir: None, mode: ApplyMode::Normal, backup: false, dry_run: false }) == stow_args(r, 2, StowState { name: Some(name), pkgs_dir: None, mode: ApplyMode::SemiForce, backup: false, dry_run: false }));
    }
    lemma_stow_line(name, "--semi-force"@, false);
    assert(seq!["stow"@] + seq![name, "--semi-force"@] =~= seq!["stow"@, name, "--semi-force"@]);
    assert(stow_args(seq!["-s"@, name], 0, s0) == Ok::<StowState, CliErr>(StowState { name: Some(name), pkgs_dir: None, mode: ApplyMode::SemiForce, backup: false, dry_run: false })) by {
        let r = seq!["-s"@, name];
        assert(stow_args(r, 0, s0) == stow_args(r, 1, StowState { name: None, pkgs_dir: None, mode: ApplyMode::SemiForce, backup: false, dry_run: false }));
        assert(stow_args(r, 1, StowState { name: None, pkgs_dir: None, mode: ApplyMode::SemiForce, backup: false, dry_run: false }) == stow_args(r, 2, StowState { name: Some(name), pkgs_dir: None, mode: ApplyMode::SemiForce, backup: false, dry_run: false }));
    }
    lemma_stow_line(name, "-s"@, true);
    assert(seq!["stow"@] + seq!["-s"@, name] =~= seq!["stow"@, "-s"@, name]);
    assert(stow_args(seq![name, "-s"@], 0, s0) == Ok::<StowState, CliErr>(StowState { name: Some(name), pkgs_dir: None, mode: ApplyMode::SemiForce, backup: false, dry_run: false })) by {
        let r = seq![name, "-s"@];
        assert(stow_args(r, 0, s0) == stow_args(r, 1, StowState { name: Some(name), pkgs_dir: None, mode: ApplyMode::Normal, backup: false, dry_run: false }));
        assert(stow_args(r, 1, StowState { name: Some(name), pkgs_dir: None, mode: ApplyMode::Normal, backup: false, dry_run: false }) == stow_args(r, 2, StowState { name: Some(name), pkgs_dir: None, mode: ApplyMode::SemiForce, backup: false, dry_run: false }));
    }
    lemma_stow_line(name, "-s"@, false);
    assert(seq!["stow"@] + seq![name, "-s"@] =~= seq!["stow"@, name, "-s"@]);
    assert(stow_args(seq!["--force"@, name], 0, s0) == Ok::<StowState, CliErr>(StowState { name: Some(name), pkgs_dir: None, mode: ApplyMode::Force, backup: false, dry_run: false })) by {
        let r = seq!["--force"@, name];
        assert(stow_args(r, 0, s0) == stow_args(r, 1, StowState { name: None, pkgs_dir: None, mode: ApplyMode::Force, backup: false, dry_run: false }));
        assert(stow_args(r, 1, StowState { name: None, pkgs_dir: None, mode: ApplyMode::Force, backup: false, dry_run: false }) == stow_args(r, 2, StowState { name: Some(name), pkgs_dir: None, mode: ApplyMode::Force, backup: false, dry_run: false }));
    }
    lemma_stow_line(name, "--force"@, true);
    assert(seq!["stow"@] + seq!["--force"@, name] =~= seq!["stow"@, "--force"@, name]);
    assert(stow_args(seq![name, "--force"@], 0, s0) == Ok::<StowState, CliErr>(StowState { name: Some(name), pkgs_dir: None, mode: ApplyMode::Force, backup: false, dry_run: false })) by {
        let r = seq![name, "--force"@];
        assert(stow_args(r, 0, s0) == stow_args(r, 1, StowState { name: Some(name), pkgs_dir: None, mode: ApplyMode::Normal, backup: false, dry_run: false }));
        assert(stow_args(r, 1, StowState { name: Some(name), pkgs_dir: None, mode: ApplyMode::Normal, backup: false, dry_run: false }) == stow_args(r, 2, StowState { name: Some(name), pkgs_dir: None, mode: ApplyMode::Force, backup: false, dry_run: false }));
    }
    lemma_stow_line(name, "--force"@, false);
    assert(seq!["stow"@] + seq![name, "--force"@] =~= seq!["stow"@, name, "--force"@]);
    assert(stow_args(seq!["-f"@, name], 0, s0) == Ok::<StowState, CliErr>(StowState { name: Some(name), pkgs_dir: None, mode: ApplyMode::Force, backup: false, dry_run: false })) by {
        let r = seq!["-f"@, name];
        assert(stow_args(r, 0, s0) == stow_args(r, 1, StowState { name: None, pkgs_dir: None, mode: ApplyMode::Force, backup: false, dry_run: false }));
        assert(stow_args(r, 1, StowState { name: None, pkgs_dir: None, mode: ApplyMode::Force, backup: false, dry_run: false }) == stow_args(r, 2, StowState { name: Some(name), pkgs_dir: None, mode: ApplyMode::Force, backup: false, dry_run: false }));
    }
    lemma_stow_line(name, "-f"@, true);
    assert(seq!["stow"@] + seq!["-f"@, name] =~= seq!["stow"@, "-f"@, name]);
    assert(stow_args(seq![name, "-f"@], 0, s0) == Ok::<StowState, CliErr>(StowState { name: Some(name), pkgs_dir: None, mode: ApplyMode::Force, backup: false, dry_run: false })) by {
        let r = seq![name, "-f"@];
        assert(stow_args(r, 0, s0) == stow_args(r, 1, StowState { name: Some(name), pkgs_dir: None, mode: ApplyMode::Normal, backup: false, dry_run: false }));
        assert(stow_args(r, 1, StowState { name: Some(name), pkgs_dir: None, mode: ApplyMode::Normal, backup: false, dry_run: false }) == stow_args(r, 2, StowState { name: Some(name), pkgs_dir: None, mode: ApplyMode::Force, backup: false, dry_run: false }));
    }
    lemma_stow_line(name, "-f"@, false);
    assert(seq!["stow"@] + seq![name, "-f"@] =~= seq!["stow"@, name, "-f"@]);
    assert(stow_args(seq!["--backup"@, name], 0, s0) == Ok::<StowState, CliErr>(StowState { name: Some(name), pkgs_dir: None, mode: ApplyMode::Normal, backup: true, dry_run: false })) by {
        let r = seq!["--backup"@, name];
        assert(stow_args(r, 0, s0) == stow_args(r, 1, StowState { name: None, pkgs_dir: None, mode: ApplyMode::Normal, backup: true, dry_run: false }));
        assert(stow_args(r, 1, StowState { name: None, pkgs_dir: None, mode: ApplyMode::Normal, backup: true, dry_run: false }) == stow_args(r, 2, StowState { name: Some(name), pkgs_dir: None, mode: ApplyMode::Normal, backup: true, dry_run: false }));
    }
    lemma_stow_line(name, "--backup"@, true);
    assert(seq!["stow"@] + seq!["--backup"@, name] =~= seq!["stow"@, "--backup"@, name]);
    assert(stow_args(seq!["-b"@, name], 0, s0) == Ok::<StowState, CliErr>(StowState { name: Some(name), pkgs_dir: None, mode: ApplyMode::Normal, backup: true, dry_run: false })) by {
        let r = seq!["-b"@, name];
        assert(stow_args(r, 0, s0) == stow_args(r, 1, StowState { name: None, pkgs_dir: None, mode: ApplyMode::Normal, backup: true, dry_run: false }));
        assert(stow_args(r, 1, StowState { name: None, pkgs_dir: None, mode: ApplyMode::Normal, backup: true, dry_run: false }) == stow_args(r, 2, StowState { name: Some(name), pkgs_dir: None, mode: ApplyMode::Normal, backup: true, dry_run: false }));
    }
    lemma_stow_line(name, "-b"@, true);
    assert(seq!["stow"@] + seq!["-b"@, name] =~= seq!["stow"@, "-b"@, name]);
    assert(stow_args(seq!["--dry-run"@, name], 0, s0) == Ok::<StowState, CliErr>(StowState { name: Some(name), pkgs_dir: None, mode: ApplyMode::Normal, backup: false, dry_run: true })) by {
        let r = seq!["--dry-run"@, name];
        assert(stow_args(r, 0, s0) == stow_args(r, 1, StowState { name: None, pkgs_dir: None, mode: ApplyMode::Normal, backup: false, dry_run: true }));
        assert(stow_args(r, 1, StowState { name: None, pkgs_dir: None, mode: ApplyMode::Normal, backup: false, dry_run: true }) == stow_args(r, 2, StowState { name: Some(name), pkgs_dir: None, mode: ApplyMode::Normal, backup: false, dry_run: true }));
    }
    lemma_stow_line(name, "--dry-run"@, true);
    assert(seq!["stow"@] + seq!["--dry-run"@, name] =~= seq!["stow"@, "--dry-run"@, name]);
}

/// The command line `stow` followed by the option `flag` and the package
/// `name` (the option first or last) is what `stow`'s own arguments give.
proof fn lemma_stow_line(name: Seq<char>, flag: Seq<char>, first: bool)
    requires
        name.len() > 0,
        name[0] != '-',
        flag.len() >= 2,
        flag[0] == '-',
        flag != "--config"@,
        flag != "--help"@,
        flag != "-h"@,
    ensures
        ({
            let rest = if first { seq![flag, name] } else { seq![name, flag] };
            let a = seq!["stow"@] + rest;
            match stow_spec(rest) {
                Ok(v) => parse_spec(a) == Ok::<CliView, CliErr>(CliView { config: None, command: Some(v), help: false }),
                Err(e) => parse_spec(a) == Err::<CliView, CliErr>(e),
            }
        }),
{
    lemma_option_literals();
    let rest = if first { seq![flag, name] } else { seq![name, flag] };
    let a = seq!["stow"@] + rest;
    assert(a[0] == "stow"@ && a[1] == rest[0] && a[2] == rest[1] && a.len() == 3);
    assert(a[0][0] == 's');
    assert(a[0] != "--config"@ && a[0] != "--help"@ && a[0] != "-h"@) by {
        assert("--config"@[0] == '-' && "--help"@[0] == '-' && "-h"@[0] == '-');
    }
    assert(name != "--config"@ && name != "--help"@ && name != "-h"@) by {
        assert("--config"@[0] == '-' && "--help"@[0] == '-' && "-h"@[0] == '-');
    }
    let e = Seq::<Seq<char>>::empty();
    assert(split_args(a, 0, None, false, e) == split_args(a, 1, None, false, e.push(a[0])));
    assert(split_args(a, 1, None, false, e.push(a[0])) == split_args(a, 2, None, false, e.push(a[0]).push(a[1])));
    assert(split_args(a, 2, None, false, e.push(a[0]).push(a[1])) == split_args(
        a,
        3,
        None,
        false,
        e.push(a[0]).push(a[1]).push(a[2]),
    ));
    assert(e.push(a[0]).push(a[1]).push(a[2]) =~= a);
    assert(a.skip(1) =~= rest);
    assert(a[0] != "config"@) by {
        assert("config"@[0] == 'c');
    }
}

/// More of `stow`'s command line, for every package name `name` and
/// directory `dir`: the package alone installs in normal mode without
/// backups; `--pkgs-dir` takes the next argument as the packages directory;
/// two force modes conflict, in either order and form; an unknown option is
/// refused by name; a second package is refused; and a package is required.
pub proof fn lemma_stow_command_line(name: Seq<char>, other: Seq<char>, dir: Seq<char>, unknown: Seq<char>)
    requires
        name.len() > 0,
        name[0] != '-',
        other.len() > 0,
        other[0] != '-',
        unknown.len() > 0,
        unknown[0] == '-',
        unknown != "--semi-force"@,
        unknown != "-s"@,
        unknown != "--force"@,
        unknown != "-f"@,
        unknown != "--backup"@,
        unknown != "-b"@,
        unknown != "--dry-run"@,
        unknown != "--pkgs-dir"@,
    ensures
        stow_spec(seq![name]) == Ok::<CommandView, CliErr>(
            CommandView::Stow { name, pkgs_dir: None, mode: ApplyMode::Normal, backup: false, dry_run: false },
        ),
        stow_spec(seq!["--pkgs-dir"@, dir, name]) == Ok::<CommandView, CliErr>(
            CommandView::Stow { name, pkgs_dir: Some(dir), mode: ApplyMode::Normal, backup: false, dry_run: false },
        ),
        stow_spec(seq!["-s"@, "-f"@, name]) == Err::<CommandView, CliErr>(CliErr::ConflictingModes),
        stow_spec(seq!["--force"@, "--semi-force"@, name]) == Err::<CommandView, CliErr>(CliErr::ConflictingModes),
        stow_spec(seq!["-f"@, "--force"@, name]) == Err::<CommandView, CliErr>(CliErr::ConflictingModes),
        stow_spec(seq![unknown, name]) == Err::<CommandView, CliErr>(CliErr::UnknownArgument(unknown)),
        stow_spec(seq![name, other]) == Err::<CommandView, CliErr>(CliErr::UnexpectedArgument(other)),
        stow_spec(Seq::empty()) == Err::<CommandView, CliErr>(CliErr::MissingPackage),
        stow_spec(seq!["--pkgs-dir"@]) == Err::<CommandView, CliErr>(CliErr::MissingPkgsDirectory),
{
    lemma_option_literals();
    let s0 = StowState { name: None, pkgs_dir: None, mode: ApplyMode::Normal, backup: false, dry_run: false };
    let named = StowState { name: Some(name), ..s0 };
    assert(!is_option(name) && !is_option(other) && is_option(unknown));
    let a1 = seq![name];
    assert(stow_args(a1, 0, s0) == stow_args(a1, 1, named));
    let a2 = seq!["--pkgs-dir"@, dir, name];
    let with_dir = StowState { pkgs_dir: Some(dir), ..s0 };
    assert(stow_args(a2, 0, s0) == stow_args(a2, 2, with_dir));
    assert(stow_args(a2, 2, with_dir) == stow_args(a2, 3, StowState { name: Some(name), ..with_dir }));
    let semi = StowState { mode: ApplyMode::SemiForce, ..s0 };
    let force = StowState { mode: ApplyMode::Force, ..s0 };
    let a3 = seq!["-s"@, "-f"@, name];
    assert(stow_args(a3, 0, s0) == stow_args(a3, 1, semi));
    let a4 = seq!["--force"@, "--semi-force"@, name];
    assert(stow_args(a4, 0, s0) == stow_args(a4, 1, force));
    let a5 = seq!["-f"@, "--force"@, name];
    assert(stow_args(a5, 0, s0) == stow_args(a5, 1, force));
    let a7 = seq![name, other];
    assert(stow_args(a7, 0, s0) == stow_args(a7, 1, named));
}

} // verus!
