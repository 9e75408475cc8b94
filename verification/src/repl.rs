//! Decisions of the plain-text mode: the command line, and what each typed
//! command does to the current folder.

use vstd::prelude::*;
use crate::DiskEntry;
use crate::EntryKind;
use crate::command::Command;
use crate::render::number_format::{decimal, push_decimal};
use crate::text::{chars_eq_str, chars_of, parse_usize, parse_usize_chars, push_chars, trim, trimmed};

verus! {

/// Slices shown before the rest is folded into one bucket.
pub const DEFAULT_MAX_SLICES: usize = 8;

/// The flag that asks for the plain-text mode.
pub const FLAG_NO_MOUSE: &'static str = "--no-mouse";

/// What the command line asks for.
#[derive(Debug, PartialEq, Eq)]
pub struct CliArgs {
    /// The plain-text mode was asked for.
    pub no_mouse: bool,
    /// The folder to start in: the first argument that is not a flag.
    pub path: Option<String>,
}

/// An argument that starts with `--` is a flag.
pub open spec fn is_flag(a: Seq<char>) -> bool {
    a.len() >= 2 && a[0] == '-' && a[1] == '-'
}

/// What `args` (without the program name) ask for.
pub open spec fn cli_matches(args: Seq<String>, c: CliArgs) -> bool {
    &&& c.no_mouse == exists|i: int| 0 <= i < args.len() && (#[trigger] args[i])@ == FLAG_NO_MOUSE@
    &&& match c.path {
        Some(p) => exists|i: int|
            0 <= i < args.len() && !is_flag((#[trigger] args[i])@) && p@ == args[i]@ && forall|j: int|
                0 <= j < i ==> is_flag((#[trigger] args[j])@),
        None => forall|i: int| 0 <= i < args.len() ==> is_flag((#[trigger] args[i])@),
    }
}

fn starts_with_dashes(a: &String) -> (b: bool)
    ensures
        b == is_flag(a@),
{
    let v = chars_of(a.as_str());
    v.len() >= 2 && v[0] == '-' && v[1] == '-'
}

/// Reads the command line: `--no-mouse` anywhere asks for the plain-text mode;
/// the first argument that is not a flag is the folder to start in.
pub fn parse_args(args: &[String]) -> (c: CliArgs)
    ensures
        cli_matches(args@, c),
{
    let mut no_mouse = false;
    let mut path: Option<String> = None;
    let mut i: usize = 0;
    while i < args.len()
        invariant
            i <= args@.len(),
            no_mouse == exists|k: int| 0 <= k < i && (#[trigger] args@[k])@ == FLAG_NO_MOUSE@,
            match path {
                Some(p) => exists|k: int|
                    0 <= k < i && !is_flag((#[trigger] args@[k])@) && p@ == args@[k]@ && forall|j: int|
                        0 <= j < k ==> is_flag((#[trigger] args@[j])@),
                None => forall|k: int| 0 <= k < i ==> is_flag((#[trigger] args@[k])@),
            },
        decreases args@.len() - i,
    {
        let a = &args[i];
        if chars_eq_str(&chars_of(a.as_str()), FLAG_NO_MOUSE) {
            no_mouse = true;
        }
        if path.is_none() && !starts_with_dashes(a) {
            path = Some(a.clone());
        }
        i = i + 1;
    }
    CliArgs { no_mouse, path }
}

/// What the plain-text mode does after a command.
#[derive(Debug, PartialEq, Eq)]
pub enum ReplAction {
    /// Leave the program.
    Quit,
    /// Stay in the current folder, printing `message` if there is one.
    Stay { message: Option<String> },
    /// Go to the parent folder.
    GoUp,
    /// Go into the child folder `name`.
    Drill { name: String },
    /// List the drives and read a choice.
    PickDrive,
}

pub open spec fn at_root_message() -> Seq<char> {
    "(déjà à la racine, on ne peut pas remonter)"@
}

pub open spec fn out_of_range_message(n: nat, slices: nat) -> Seq<char> {
    "(numéro "@ + decimal(n) + " hors de portée — il y a "@ + decimal(slices) + " tranches)"@
}

pub open spec fn not_a_folder_message(n: nat, name: Seq<char>) -> Seq<char> {
    "(la tranche ["@ + decimal(n) + "] « "@ + name + " » n'est pas un dossier — drill-down impossible)"@
}

pub open spec fn unknown_message(input: Seq<char>) -> Seq<char> {
    "(commande inconnue : « "@ + input + " »)"@
}

/// `m` is `Stay` with exactly this message.
pub open spec fn stays_with(a: ReplAction, message: Seq<char>) -> bool {
    a matches ReplAction::Stay { message: Some(m) } && m@ == message
}

/// What a command does in the plain-text mode, on a folder showing `pie`;
/// `at_root` tells whether the folder has no parent.
pub open spec fn repl_action_matches(command: Command, pie: Seq<DiskEntry>, at_root: bool, a: ReplAction) -> bool {
    match command {
        Command::Quit => a is Quit,
        Command::Refresh => a matches ReplAction::Stay { message: None },
        Command::Up => if at_root {
            stays_with(a, at_root_message())
        } else {
            a is GoUp
        },
        Command::DrillInto { slice_number } => if slice_number == 0 || slice_number > pie.len() {
            stays_with(a, out_of_range_message(slice_number as nat, pie.len()))
        } else if pie[slice_number - 1].kind != EntryKind::Folder {
            stays_with(a, not_a_folder_message(slice_number as nat, pie[slice_number - 1].name@))
        } else {
            a matches ReplAction::Drill { name } && name@ == pie[slice_number - 1].name@
        },
        Command::ChangeDrive => a is PickDrive,
        Command::Unknown(input) => stays_with(a, unknown_message(input@)),
    }
}

/// Decides what a typed command does: slice numbers are checked against the
/// pie, only folders can be drilled into, and the root has no parent.
pub fn repl_action(command: Command, pie: &[DiskEntry], at_root: bool) -> (a: ReplAction)
    ensures
        repl_action_matches(command, pie@, at_root, a),
{
    match command {
        Command::Quit => ReplAction::Quit,
        Command::Refresh => ReplAction::Stay { message: None },
        Command::Up => {
            if at_root {
                ReplAction::Stay { message: Some("(déjà à la racine, on ne peut pas remonter)".to_owned()) }
            } else {
                ReplAction::GoUp
            }
        },
        Command::DrillInto { slice_number } => {
            if slice_number == 0 || slice_number > pie.len() {
                let mut m = String::new();
                push_chars(&mut m, &chars_of("(numéro "));
                push_decimal(&mut m, slice_number as u64);
                push_chars(&mut m, &chars_of(" hors de portée — il y a "));
                push_decimal(&mut m, pie.len() as u64);
                push_chars(&mut m, &chars_of(" tranches)"));
                return ReplAction::Stay { message: Some(m) };
            }
            let target = &pie[slice_number - 1];
            if !target.is_drillable() {
                let mut m = String::new();
                push_chars(&mut m, &chars_of("(la tranche ["));
                push_decimal(&mut m, slice_number as u64);
                push_chars(&mut m, &chars_of("] « "));
                push_chars(&mut m, &chars_of(target.name.as_str()));
                push_chars(&mut m, &chars_of(" » n'est pas un dossier — drill-down impossible)"));
                return ReplAction::Stay { message: Some(m) };
            }
            ReplAction::Drill { name: target.name.clone() }
        },
        Command::ChangeDrive => ReplAction::PickDrive,
        Command::Unknown(input) => {
            let mut m = String::new();
            push_chars(&mut m, &chars_of("(commande inconnue : « "));
            push_chars(&mut m, &chars_of(input.as_str()));
            push_chars(&mut m, &chars_of(" »)"));
            ReplAction::Stay { message: Some(m) }
        },
    }
}

/// The drive a typed line picks among `count` listed drives: a 1-based number,
/// surrounding whitespace ignored.
pub open spec fn drive_choice_of(line: Seq<char>, count: int) -> Option<usize> {
    match parse_usize(trim(line)) {
        Some(n) => if 1 <= n <= count {
            Some((n - 1) as usize)
        } else {
            None
        },
        None => None,
    }
}

/// The position in the list of the drive a typed line picks, if any.
pub fn drive_choice(line: &str, count: usize) -> (r: Option<usize>)
    ensures
        r == drive_choice_of(line@, count as int),
{
    let t = trimmed(&chars_of(line));
    match parse_usize_chars(&t) {
        Some(n) => {
            if n >= 1 && n <= count {
                Some(n - 1)
            } else {
                None
            }
        },
        None => None,
    }
}

/// Drilling at the prompt goes only into real folders: the current folder
/// changes to slice `n` exactly when `n` numbers a slice whose kind is
/// `Folder`; a file or the synthetic bucket stays, with the message that it is
/// not a folder.
pub proof fn lemma_prompt_drills_only_into_folders(n: usize, pie: Seq<DiskEntry>, at_root: bool, a: ReplAction)
    requires
        repl_action_matches(Command::DrillInto { slice_number: n }, pie, at_root, a),
    ensures
        (a is Drill) <==> (1 <= n <= pie.len() && pie[n - 1].kind == EntryKind::Folder),
        a matches ReplAction::Drill { name } ==> name@ == pie[n - 1].name@,
        1 <= n <= pie.len() && pie[n - 1].kind != EntryKind::Folder ==> stays_with(
            a,
            not_a_folder_message(n as nat, pie[n - 1].name@),
        ),
{
}

/// The other commands at the prompt: Q leaves, an empty line stays, U goes up
/// except at the root, where it stays and says so, D lists the drives.
pub proof fn lemma_prompt_commands(pie: Seq<DiskEntry>, at_root: bool, a: ReplAction, command: Command)
    requires
        repl_action_matches(command, pie, at_root, a),
    ensures
        command == Command::Quit ==> a is Quit,
        command == Command::Refresh ==> a == (ReplAction::Stay { message: None }),
        command == Command::Up ==> (a is GoUp <==> !at_root),
        command == Command::Up && at_root ==> stays_with(a, at_root_message()),
        command == Command::ChangeDrive ==> a is PickDrive,
        a is GoUp ==> !at_root,
{
}

} // verus!
